//! Parameter layout of a full binary EML tree.
use vstd::prelude::*;
use vstd::arithmetic::power2::{
    pow2,
    lemma_pow2_pos,
    lemma_pow2_unfold,
    lemma_pow2_strictly_increases,
    lemma2_to64,
    lemma2_to64_rest,
};
use vstd::bits::{lemma_usize_shl_is_mul, lemma_usize_pow2_no_overflow};

verus! {

/// Number of logits behind one input of a node on `layer`: the leaves
/// (layer 1) choose from `{1, x}`, higher layers from `{1, x, child}`.
pub open spec fn logits_per_input(layer: nat) -> nat {
    if layer == 1 { 2 } else { 3 }
}

/// Number of `eml` nodes on `layer` (1 = leaves) of a depth-`depth` tree.
pub open spec fn layer_nodes(depth: nat, layer: nat) -> nat {
    pow2((depth - layer) as nat)
}

/// The parameter count `5·2^d − 6` of a depth-`d` tree (and 0 for the empty tree).
pub open spec fn spec_n_params(depth: nat) -> nat {
    if depth == 0 { 0 } else { (5 * pow2(depth) - 6) as nat }
}

/// Index of the first logit of `layer`: the logits of all lower layers come first.
pub open spec fn params_before(depth: nat, layer: nat) -> nat
    decreases layer,
{
    if layer <= 1 {
        0
    } else {
        params_before(depth, (layer - 1) as nat) + 2 * layer_nodes(depth, (layer - 1) as nat)
            * logits_per_input((layer - 1) as nat)
    }
}

/// A parameter block: `(layer, node, is_left, start_index, n_logits)`, the
/// logits behind one input of one node.
pub type Block = (usize, usize, bool, usize, usize);

/// The `j`-th block of `layer`: inputs come node by node, the left input
/// before the right one, and their logits follow each other without gaps.
pub open spec fn layer_block(depth: nat, layer: nat, j: int) -> Block {
    (
        layer as usize,
        (j / 2) as usize,
        j % 2 == 0,
        (params_before(depth, layer) + j * logits_per_input(layer)) as usize,
        logits_per_input(layer) as usize,
    )
}

/// The blocks of one layer, two per node.
pub open spec fn layer_blocks(depth: nat, layer: nat) -> Seq<Block> {
    Seq::new(2 * layer_nodes(depth, layer), |j: int| layer_block(depth, layer, j))
}

/// The blocks of layers `1..=layer`, lowest layer first.
pub open spec fn blocks_through(depth: nat, layer: nat) -> Seq<Block>
    decreases layer,
{
    if layer == 0 {
        Seq::empty()
    } else {
        blocks_through(depth, (layer - 1) as nat) + layer_blocks(depth, layer)
    }
}

/// The parameter block of every input of a depth-`depth` tree.
pub open spec fn spec_input_blocks(depth: nat) -> Seq<Block> {
    blocks_through(depth, depth)
}

/// Depths whose parameter count is representable as a `usize`.
pub open spec fn depth_fits(depth: nat) -> bool {
    depth == 0 || 5 * pow2(depth) - 6 <= usize::MAX
}

/// A power of two that fits in a `usize` has an exponent below the word size.
proof fn lemma_pow2_fits_usize(k: nat)
    requires
        pow2(k) <= usize::MAX,
    ensures
        k < usize::BITS,
{
    if k >= usize::BITS {
        lemma2_to64();
        lemma2_to64_rest();
        if k > usize::BITS {
            lemma_pow2_strictly_increases(usize::BITS as nat, k);
        }
    }
}

/// Every layer of a tree whose parameter count fits has a node count that fits
/// and a shift amount below the word size.
proof fn lemma_layer_nodes_fit(depth: nat, layer: nat)
    requires
        depth_fits(depth),
        1 <= layer <= depth,
    ensures
        layer_nodes(depth, layer) * 2 * logits_per_input(layer) <= spec_n_params(depth),
        layer_nodes(depth, layer) * 2 * logits_per_input(layer) <= usize::MAX,
        (depth - layer) < usize::BITS,
{
    lemma_pow2_unfold(depth);
    lemma_pow2_pos((depth - 1) as nat);
    if layer > 1 {
        lemma_pow2_unfold((depth - 1) as nat);
        lemma_pow2_pos((depth - 2) as nat);
        if layer > 2 {
            lemma_pow2_strictly_increases((depth - layer) as nat, (depth - 2) as nat);
        }
    }
    lemma_pow2_fits_usize((depth - layer) as nat);
}

/// `1 << (depth - layer)` is the node count of `layer`.
pub(crate) proof fn lemma_shift_is_layer_nodes(depth: usize, layer: usize)
    requires
        depth_fits(depth as nat),
        1 <= layer <= depth,
    ensures
        1usize << ((depth - layer) as usize) == layer_nodes(depth as nat, layer as nat),
        depth - layer < usize::BITS,
{
    lemma_layer_nodes_fit(depth as nat, layer as nat);
    lemma_usize_shl_is_mul(1, (depth - layer) as usize);
}

/// Total number of trainable logits for a full binary EML tree of the given
/// depth: `5·2^depth − 6`, and 0 for depth 0.
///
/// Layer 1 (the leaves) has `2^(depth-1)` nodes whose two inputs carry 2
/// logits each; layer `l ≥ 2` has `2^(depth-l)` nodes whose inputs carry 3.
pub fn n_params(depth: usize) -> (n: usize)
    requires
        depth_fits(depth as nat),
    ensures
        n == spec_n_params(depth as nat),
{
    if depth == 0 {
        return 0;
    }
    let ghost d = depth as nat;
    proof {
        lemma_layer_nodes_fit(d, 1);
    }
    let mut total: usize = 0;
    let mut layer: usize = 1;
    while layer <= depth
        invariant
            1 <= layer <= depth + 1,
            depth >= 1,
            depth <= usize::BITS,
            d == depth,
            depth_fits(d),
            layer == 1 ==> total == 0,
            layer > 1 ==> total + 6 * pow2((d - (layer - 1)) as nat) == 5 * pow2(d),
        decreases depth + 1 - layer,
    {
        proof {
            lemma_shift_is_layer_nodes(depth, layer);
            lemma_layer_nodes_fit(d, layer as nat);
            lemma_pow2_unfold(d);
            lemma_pow2_unfold((d - (layer - 1)) as nat);
            lemma_pow2_pos((d - layer) as nat);
        }
        let nodes: usize = 1usize << (depth - layer);
        let logits: usize = if layer == 1 { 2 } else { 3 };
        assert(nodes == pow2((d - layer) as nat));
        if layer == 1 {
            assert(nodes * 2 * logits == 4 * nodes) by (nonlinear_arith)
                requires
                    logits == 2,
            ;
            assert(pow2(d) == 2 * pow2((d - 1) as nat));
        } else {
            assert(nodes * 2 * logits == 6 * nodes) by (nonlinear_arith)
                requires
                    logits == 3,
            ;
            assert(pow2((d - (layer - 1)) as nat) == 2 * pow2((d - layer) as nat));
        }
        assert(total + nodes * 2 * logits + 6 * pow2((d - layer) as nat) == 5 * pow2(d));
        total = total + nodes * 2 * logits;
        layer = layer + 1;
    }
    proof {
        lemma2_to64();
    }
    total
}

/// Closed form of the offset of each layer: all logits below `layer` take
/// `5·2^depth − 6·2^(depth−layer+1)` slots.
proof fn lemma_params_before(depth: nat, layer: nat)
    requires
        1 <= layer <= depth + 1,
    ensures
        layer == 1 ==> params_before(depth, layer) == 0,
        layer > 1 ==> params_before(depth, layer) + 6 * pow2((depth + 1 - layer) as nat) == 5
            * pow2(depth),
        params_before(depth, layer) <= spec_n_params(depth),
    decreases layer,
{
    if layer > 1 {
        let prev = (layer - 1) as nat;
        let below = pow2((depth + 2 - layer) as nat);
        let here = pow2((depth + 1 - layer) as nat);
        lemma_params_before(depth, prev);
        lemma_pow2_unfold((depth + 2 - layer) as nat);
        lemma_pow2_pos((depth + 1 - layer) as nat);
        assert(layer_nodes(depth, prev) == here);
        assert(below == 2 * here);
        let lp = logits_per_input(prev);
        assert(params_before(depth, layer) == params_before(depth, prev) + 2 * here * lp);
        assert(2 * here * lp == here * (2 * lp)) by (nonlinear_arith);
        if prev == 1 {
            assert(params_before(depth, layer) == 4 * here);
            lemma_pow2_unfold(depth);
        } else {
            assert(params_before(depth, layer) == params_before(depth, prev) + 6 * here);
        }
    }
}

/// Return the parameter block for every tree input.
///
/// Each entry is `(layer, node, is_left, start_index, n_logits)` where
/// `n_logits` is `2` for layer 1 and `3` otherwise; layers come from the
/// leaves up, nodes in order, the left input before the right one.
pub fn input_blocks(depth: usize) -> (blocks: Vec<Block>)
    requires
        depth_fits(depth as nat),
    ensures
        blocks@ == spec_input_blocks(depth as nat),
{
    let ghost d = depth as nat;
    let mut blocks: Vec<Block> = Vec::new();
    if depth == 0 {
        assert(blocks@ =~= spec_input_blocks(d));
        return blocks;
    }
    proof {
        lemma_layer_nodes_fit(d, 1);
    }
    let mut start: usize = 0;
    let mut layer: usize = 1;
    while layer <= depth
        invariant
            1 <= layer <= depth + 1,
            depth >= 1,
            depth <= usize::BITS,
            d == depth,
            depth_fits(d),
            blocks@ == blocks_through(d, (layer - 1) as nat),
            start == params_before(d, layer as nat),
        decreases depth + 1 - layer,
    {
        proof {
            lemma_shift_is_layer_nodes(depth, layer);
            lemma_layer_nodes_fit(d, layer as nat);
            lemma_params_before(d, (layer + 1) as nat);
        }
        let nodes: usize = 1usize << (depth - layer);
        let logits: usize = if layer == 1 { 2 } else { 3 };
        let ghost lower = blocks@;
        let mut node: usize = 0;
        while node < nodes
            invariant
                1 <= layer <= depth,
                d == depth,
                nodes == layer_nodes(d, layer as nat),
                logits == logits_per_input(layer as nat),
                lower == blocks_through(d, (layer - 1) as nat),
                node <= nodes,
                blocks@ == lower + Seq::new(
                    2 * node as nat,
                    |j: int| layer_block(d, layer as nat, j),
                ),
                start == params_before(d, layer as nat) + 2 * node * logits,
                params_before(d, (layer + 1) as nat) <= usize::MAX,
                params_before(d, (layer + 1) as nat) == params_before(d, layer as nat) + 2 * nodes
                    * logits,
            decreases nodes - node,
        {
            assert(2 * node * logits + 2 * logits <= 2 * nodes * logits) by (nonlinear_arith)
                requires
                    node < nodes,
            ;
            assert(params_before(d, layer as nat) + 2 * (node + 1) * logits == params_before(
                d,
                layer as nat,
            ) + 2 * node * logits + 2 * logits) by (nonlinear_arith);
            blocks.push((layer, node, true, start, logits));
            blocks.push((layer, node, false, start + logits, logits));
            start = start + 2 * logits;
            node = node + 1;
            assert(blocks@ =~= lower + Seq::new(
                2 * node as nat,
                |j: int| layer_block(d, layer as nat, j),
            ));
        }
        assert(blocks@ =~= blocks_through(d, layer as nat));
        layer = layer + 1;
    }
    blocks
}

/// Position of the block of input (`layer`, `node`, `is_left`) among all blocks.
pub open spec fn block_index(depth: nat, layer: nat, node: nat, is_left: bool) -> int {
    blocks_through(depth, (layer - 1) as nat).len() + 2 * node + (if is_left { 0int } else { 1int })
}

/// Blocks of lower layers keep their positions when further layers are added.
proof fn lemma_blocks_prefix(depth: nat, lo: nat, hi: nat, i: int)
    requires
        lo <= hi,
        0 <= i < blocks_through(depth, lo).len(),
    ensures
        i < blocks_through(depth, hi).len(),
        blocks_through(depth, hi)[i] == blocks_through(depth, lo)[i],
    decreases hi,
{
    if hi > lo {
        lemma_blocks_prefix(depth, lo, (hi - 1) as nat, i);
    }
}

/// The blocks of layers `1..=layer` number `2·(2^depth − 2^(depth−layer))`.
proof fn lemma_blocks_through_len(depth: nat, layer: nat)
    requires
        layer <= depth,
    ensures
        blocks_through(depth, layer).len() + 2 * pow2((depth - layer) as nat) == 2 * pow2(depth),
    decreases layer,
{
    if layer > 0 {
        lemma_blocks_through_len(depth, (layer - 1) as nat);
        lemma_pow2_unfold((depth + 1 - layer) as nat);
    }
}

/// Every block of layers `1..=layer` lies at the position of its own key and
/// has the shape that its layer gives it.
proof fn lemma_blocks_through_entry(depth: nat, layer: nat, i: int)
    requires
        layer <= depth,
        depth_fits(depth),
        0 <= i < blocks_through(depth, layer).len(),
    ensures
        ({
            let b = blocks_through(depth, layer)[i];
            &&& 1 <= b.0 <= layer
            &&& b.1 < layer_nodes(depth, b.0 as nat)
            &&& block_index(depth, b.0 as nat, b.1 as nat, b.2) == i
            &&& b.3 == params_before(depth, b.0 as nat) + (2 * b.1 + (if b.2 { 0int } else { 1int }))
                * logits_per_input(b.0 as nat)
            &&& b.4 == logits_per_input(b.0 as nat)
        }),
    decreases layer,
{
    let prev = blocks_through(depth, (layer - 1) as nat);
    if i < prev.len() {
        lemma_blocks_through_entry(depth, (layer - 1) as nat, i);
        assert(blocks_through(depth, layer)[i] == prev[i]);
    } else {
        let j = i - prev.len();
        let n = logits_per_input(layer);
        assert(blocks_through(depth, layer)[i] == layer_block(depth, layer, j));
        lemma_layer_block_values(depth, layer, j);
        assert(j / 2 < layer_nodes(depth, layer));
        assert(2 * (j / 2) + (if j % 2 == 0 { 0int } else { 1int }) == j);
    }
}

/// The fields of the `j`-th block of a layer are its spec values, without
/// truncation, and the block ends no later than the next layer begins.
proof fn lemma_layer_block_values(depth: nat, layer: nat, j: int)
    requires
        1 <= layer <= depth,
        depth_fits(depth),
        0 <= j < 2 * layer_nodes(depth, layer),
    ensures
        ({
            let b = layer_block(depth, layer, j);
            let n = logits_per_input(layer);
            &&& b.0 == layer
            &&& b.1 == j / 2
            &&& b.2 == (j % 2 == 0)
            &&& b.3 == params_before(depth, layer) + j * n
            &&& b.4 == n
            &&& params_before(depth, layer) + (j + 1) * n <= params_before(depth, (layer + 1) as nat)
            &&& (j + 1) * n == j * n + n
        }),
{
    let n = logits_per_input(layer);
    let nodes = layer_nodes(depth, layer);
    lemma_layer_nodes_fit(depth, 1);
    lemma_layer_nodes_fit(depth, layer);
    lemma_params_before(depth, (layer + 1) as nat);
    lemma2_to64();
    assert((j + 1) * n <= 2 * nodes * n) by (nonlinear_arith)
        requires
            j < 2 * nodes,
            0 <= j,
            n >= 0,
    ;
    assert((j + 1) * n == j * n + n) by (nonlinear_arith);
    assert(params_before(depth, (layer + 1) as nat) == params_before(depth, layer) + 2 * nodes * n);
    assert(0 <= j * n) by (nonlinear_arith)
        requires
            0 <= j,
            0 <= n,
    ;
}

/// Within layers `1..=layer`, each block starts where the previous one ends,
/// the first starts at 0 and the last ends where layer `layer + 1` begins.
proof fn lemma_blocks_through_tile(depth: nat, layer: nat)
    requires
        1 <= layer <= depth,
        depth_fits(depth),
    ensures
        ({
            let s = blocks_through(depth, layer);
            &&& s.len() > 0
            &&& s[0].3 == 0
            &&& forall|i: int|
                0 <= i < s.len() - 1 ==> #[trigger] s[i + 1].3 == s[i].3 + s[i].4
            &&& s[s.len() - 1].3 + s[s.len() - 1].4 == params_before(depth, (layer + 1) as nat)
        }),
    decreases layer,
{
    let s = blocks_through(depth, layer);
    let prev = blocks_through(depth, (layer - 1) as nat);
    let nodes = layer_nodes(depth, layer);
    lemma_pow2_pos((depth - layer) as nat);
    assert(s.len() == prev.len() + 2 * nodes);
    if layer > 1 {
        lemma_blocks_through_tile(depth, (layer - 1) as nat);
    } else {
        assert(prev.len() == 0);
        lemma_layer_block_values(depth, layer, 0);
    }
    assert(s[0].3 == 0) by {
        if layer > 1 {
            assert(s[0] == prev[0]);
        } else {
            assert(s[0] == layer_block(depth, layer, 0));
        }
    }
    assert forall|i: int| 0 <= i < s.len() - 1 implies #[trigger] s[i + 1].3 == s[i].3 + s[i].4 by {
        if i + 1 < prev.len() {
            assert(s[i] == prev[i]);
            assert(s[i + 1] == prev[i + 1]);
        } else if i + 1 == prev.len() {
            assert(s[i] == prev[i]);
            assert(s[i + 1] == layer_block(depth, layer, 0));
            lemma_layer_block_values(depth, layer, 0);
        } else {
            let j = i - prev.len();
            assert(s[i] == layer_block(depth, layer, j));
            assert(s[i + 1] == layer_block(depth, layer, j + 1));
            lemma_layer_block_values(depth, layer, j);
            lemma_layer_block_values(depth, layer, j + 1);
        }
    }
    let last = 2 * nodes - 1;
    assert(s[s.len() - 1] == layer_block(depth, layer, last));
    lemma_layer_block_values(depth, layer, last);
}

/// Law: a depth-`depth` tree has `2·(2^depth − 1)` inputs, and one block per input.
pub proof fn lemma_input_blocks_len(depth: nat)
    ensures
        spec_input_blocks(depth).len() == 2 * (pow2(depth) - 1),
{
    lemma_blocks_through_len(depth, depth);
    lemma2_to64();
}

/// Law: the blocks tile the parameter vector. The first block starts at 0,
/// every block starts where the previous one ends, and the last one ends at
/// `n_params(depth)`; so every logit belongs to exactly one input.
pub proof fn lemma_input_blocks_tile(depth: nat)
    requires
        depth >= 1,
        depth_fits(depth),
    ensures
        ({
            let s = spec_input_blocks(depth);
            &&& s.len() > 0
            &&& s[0].3 == 0
            &&& forall|i: int|
                0 <= i < s.len() - 1 ==> #[trigger] s[i + 1].3 == s[i].3 + s[i].4
            &&& s[s.len() - 1].3 + s[s.len() - 1].4 == spec_n_params(depth)
        }),
{
    lemma_blocks_through_tile(depth, depth);
    lemma_params_before(depth, depth + 1);
    lemma2_to64();
}

/// Law: the input (`layer`, `node`, `is_left`) of a tree has its block at
/// `block_index`; it holds `logits_per_input(layer)` logits, starting at
/// `params_before(layer) + (2·node + side)·logits_per_input(layer)`, where
/// side is 0 for the left input and 1 for the right one.
pub proof fn lemma_input_blocks_lookup(depth: nat, layer: nat, node: nat, is_left: bool)
    requires
        depth_fits(depth),
        1 <= layer <= depth,
        node < layer_nodes(depth, layer),
    ensures
        0 <= block_index(depth, layer, node, is_left) < spec_input_blocks(depth).len(),
        ({
            let b = spec_input_blocks(depth)[block_index(depth, layer, node, is_left)];
            &&& b.0 == layer
            &&& b.1 == node
            &&& b.2 == is_left
            &&& b.3 == params_before(depth, layer) + (2 * node + (if is_left { 0int } else { 1int }))
                * logits_per_input(layer)
            &&& b.4 == logits_per_input(layer)
        }),
{
    let prev = blocks_through(depth, (layer - 1) as nat);
    let j = 2 * node + (if is_left { 0int } else { 1int });
    let idx = block_index(depth, layer, node, is_left);
    assert(idx == prev.len() + j);
    assert(blocks_through(depth, layer)[idx] == layer_block(depth, layer, j));
    lemma_layer_block_values(depth, layer, j);
    lemma_blocks_prefix(depth, layer, depth, idx);
}

/// Law: every block sits at the position of its own key, and its key names
/// an input of the tree; no input has two blocks.
pub proof fn lemma_input_blocks_unique(depth: nat, i: int)
    requires
        depth_fits(depth),
        0 <= i < spec_input_blocks(depth).len(),
    ensures
        ({
            let b = spec_input_blocks(depth)[i];
            &&& 1 <= b.0 <= depth
            &&& b.1 < layer_nodes(depth, b.0 as nat)
            &&& block_index(depth, b.0 as nat, b.1 as nat, b.2) == i
            &&& b.4 == logits_per_input(b.0 as nat)
        }),
{
    lemma_blocks_through_entry(depth, depth, i);
}

/// Whether the parameter count of a depth-`depth` tree fits in a `usize`,
/// the condition under which `n_params` and `input_blocks` do not overflow.
pub fn fits(depth: usize) -> (b: bool)
    ensures
        b == depth_fits(depth as nat),
{
    if depth == 0 {
        return true;
    }
    if depth >= usize::BITS as usize {
        proof {
            lemma2_to64();
            lemma2_to64_rest();
            if depth > usize::BITS {
                lemma_pow2_strictly_increases(usize::BITS as nat, depth as nat);
            }
        }
        return false;
    }
    proof {
        lemma_usize_pow2_no_overflow(depth as nat);
        lemma_usize_shl_is_mul(1, depth);
    }
    let p: usize = 1usize << depth;
    let count: u128 = 5 * (p as u128);
    count <= usize::MAX as u128 + 6
}

/// Which logits of one block get the initial bias: only the last one.
pub open spec fn block_bias(b: Block) -> Seq<bool> {
    Seq::new(b.4 as nat, |t: int| t + 1 == b.4)
}

/// The bias flags of a run of blocks, block after block.
pub open spec fn bias_pattern(blocks: Seq<Block>) -> Seq<bool>
    decreases blocks.len(),
{
    if blocks.len() == 0 {
        Seq::empty()
    } else {
        bias_pattern(blocks.drop_last()) + block_bias(blocks.last())
    }
}

/// The flags of the first `k` blocks end where block `k` starts (or, after
/// the last block, at the parameter count).
proof fn lemma_bias_pattern_len(depth: nat, k: int)
    requires
        depth >= 1,
        depth_fits(depth),
        0 <= k <= spec_input_blocks(depth).len(),
    ensures
        ({
            let s = spec_input_blocks(depth);
            &&& k < s.len() ==> bias_pattern(s.take(k)).len() == s[k].3
            &&& k == s.len() ==> bias_pattern(s.take(k)).len() == spec_n_params(depth)
        }),
    decreases k,
{
    let s = spec_input_blocks(depth);
    lemma_input_blocks_tile(depth);
    if k > 0 {
        lemma_bias_pattern_len(depth, k - 1);
        assert(s.take(k).drop_last() =~= s.take(k - 1));
        assert(s.take(k).last() == s[k - 1]);
        assert(bias_pattern(s.take(k)).len() == bias_pattern(s.take(k - 1)).len() + s[k - 1].4);
        if k < s.len() {
            assert(s[(k - 1) + 1].3 == s[k - 1].3 + s[k - 1].4);
        }
    } else {
        assert(s.take(0) =~= Seq::<Block>::empty());
    }
}

/// For each logit of a depth-`depth` tree, whether `init_biased` adds its
/// bias of `0.5`: the last logit of every input, the one that selects `x`
/// at the leaves and the child output above them.
pub fn biased_logits(depth: usize) -> (mask: Vec<bool>)
    requires
        depth_fits(depth as nat),
    ensures
        mask@ == bias_pattern(spec_input_blocks(depth as nat)),
        mask.len() == spec_n_params(depth as nat),
        forall|k: int, i: int|
            #![trigger spec_input_blocks(depth as nat)[k], mask@[i]]
            0 <= k < spec_input_blocks(depth as nat).len() && spec_input_blocks(depth as nat)[k].3
                <= i < spec_input_blocks(depth as nat)[k].3 + spec_input_blocks(depth as nat)[k].4
                ==> mask@[i] == (i + 1 == spec_input_blocks(depth as nat)[k].3
                + spec_input_blocks(depth as nat)[k].4),
{
    let ghost d = depth as nat;
    let blocks = input_blocks(depth);
    let mut mask: Vec<bool> = Vec::new();
    let mut k: usize = 0;
    proof {
        assert(blocks@.take(0) =~= Seq::<Block>::empty());
    }
    while k < blocks.len()
        invariant
            k <= blocks@.len(),
            blocks@ == spec_input_blocks(d),
            mask@ == bias_pattern(blocks@.take(k as int)),
        decreases blocks@.len() - k,
    {
        let n = blocks[k].4;
        let ghost before = mask@;
        let mut t: usize = 0;
        while t < n
            invariant
                t <= n,
                n == blocks@[k as int].4,
                mask@ == before + Seq::new(t as nat, |i: int| i + 1 == n),
            decreases n - t,
        {
            mask.push(t + 1 == n);
            t = t + 1;
            assert(mask@ =~= before + Seq::new(t as nat, |i: int| i + 1 == n));
        }
        proof {
            assert(blocks@.take(k + 1).drop_last() =~= blocks@.take(k as int));
            assert(block_bias(blocks@[k as int]) =~= Seq::new(n as nat, |i: int| i + 1 == n));
        }
        k = k + 1;
    }
    proof {
        assert(blocks@.take(blocks@.len() as int) =~= blocks@);
        if d == 0 {
            assert(blocks@.len() == 0) by {
                lemma_input_blocks_len(0);
                lemma2_to64();
            }
        } else {
            lemma_bias_pattern_len(d, blocks@.len() as int);
            assert forall|k: int, i: int|
                #![trigger blocks@[k], mask@[i]]
                0 <= k < blocks@.len() && blocks@[k].3 <= i < blocks@[k].3 + blocks@[k].4 implies mask@[i]
                    == (i + 1 == blocks@[k].3 + blocks@[k].4) by {
                lemma_bias_pattern_len(d, k);
                lemma_bias_pattern_prefix(blocks@, k + 1);
                assert(blocks@.take(k + 1).drop_last() =~= blocks@.take(k));
                assert(blocks@.take(k + 1).last() == blocks@[k]);
                let short = bias_pattern(blocks@.take(k));
                let long = bias_pattern(blocks@.take(k + 1));
                assert(long == short + block_bias(blocks@[k]));
                assert(short.len() == blocks@[k].3);
                assert(long[i] == block_bias(blocks@[k])[i - blocks@[k].3]);
                assert(long[i] == bias_pattern(blocks@)[i]);
            }
        }
    }
    mask
}

/// The flags of the first `k` blocks are a prefix of the flags of all of them.
proof fn lemma_bias_pattern_prefix(s: Seq<Block>, k: int)
    requires
        0 <= k <= s.len(),
    ensures
        bias_pattern(s.take(k)).len() <= bias_pattern(s).len(),
        forall|i: int|
            0 <= i < bias_pattern(s.take(k)).len() ==> #[trigger] bias_pattern(s.take(k))[i]
                == bias_pattern(s)[i],
    decreases s.len() - k,
{
    if k < s.len() {
        lemma_bias_pattern_prefix(s, k + 1);
        assert(s.take(k + 1).drop_last() =~= s.take(k));
        let short = bias_pattern(s.take(k));
        let long = bias_pattern(s.take(k + 1));
        assert(long == short + block_bias(s.take(k + 1).last()));
        assert forall|i: int| 0 <= i < short.len() implies #[trigger] short[i] == bias_pattern(
            s,
        )[i] by {
            assert(long[i] == short[i]);
        }
    } else {
        assert(s.take(k) =~= s);
    }
}

} // verus!
