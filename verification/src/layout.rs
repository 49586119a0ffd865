//! The float-free part of an EML tree: which logits feed which input, where
//! each input takes its child output from, and how one-hot selectors snap
//! the tree into an expression.
use vstd::prelude::*;
use vstd::arithmetic::power2::{pow2, lemma_pow2_unfold};
use crate::error::Error;
use crate::expr::{Expr, ONE_BITS, one};
use crate::params::{
    Block,
    block_index,
    depth_fits,
    input_blocks,
    layer_nodes,
    lemma_shift_is_layer_nodes,
    lemma_input_blocks_len,
    lemma_input_blocks_lookup,
    lemma_input_blocks_tile,
    lemma_input_blocks_unique,
    logits_per_input,
    n_params,
    params_before,
    spec_input_blocks,
    spec_n_params,
};

verus! {

/// The parameter layout of a full binary EML tree of depth at least 1.
pub struct TreeLayout {
    depth: usize,
    blocks: Vec<Block>,
}

/// Where one input of one node takes its value from.
#[derive(Debug, Clone, Copy, PartialEq, Eq)]
pub struct InputSource {
    /// Index of the first logit of the input's selector.
    pub start: usize,
    /// Number of logits (and of sources): 2 at the leaves, 3 above.
    pub n_logits: usize,
    /// Index, within the layer below, of the node whose output is the third
    /// source; `None` at the leaves, which choose only from `{1, x}`.
    pub child: Option<usize>,
}

/// 0 for the left input of a node, 1 for the right one.
pub open spec fn side(is_left: bool) -> int {
    if is_left { 0 } else { 1 }
}

/// Whether `choices` picks, for every input in block order, one of the
/// sources that its selector has logits for (0 = `1`, 1 = `x`, 2 = child).
pub open spec fn valid_choices(depth: nat, choices: Seq<usize>) -> bool {
    &&& choices.len() == spec_input_blocks(depth).len()
    &&& forall|i: int| 0 <= i < choices.len() ==> #[trigger] choices[i] < spec_input_blocks(depth)[i].4
}

/// The snapped expression of one input: the constant `1`, the variable `x`,
/// or the snapped expression of its child node.
pub open spec fn spec_snap_input(
    depth: nat,
    choices: Seq<usize>,
    layer: nat,
    node: nat,
    is_left: bool,
) -> Expr
    decreases layer, 0nat,
{
    let c = choices[block_index(depth, layer, node, is_left)];
    if c == 0 {
        one()
    } else if c == 1 {
        Expr::Var
    } else if layer > 1 {
        spec_snap_node(depth, choices, (layer - 1) as nat, (2 * node + side(is_left)) as nat)
    } else {
        Expr::Var
    }
}

/// The snapped expression of node `node` on `layer`: `eml` of its two inputs.
pub open spec fn spec_snap_node(depth: nat, choices: Seq<usize>, layer: nat, node: nat) -> Expr
    decreases layer, 1nat,
{
    if layer == 0 {
        Expr::Var
    } else {
        Expr::Eml(
            Box::new(spec_snap_input(depth, choices, layer, node, true)),
            Box::new(spec_snap_input(depth, choices, layer, node, false)),
        )
    }
}

/// Expressions that snapping produces: built from the constant `1`, the
/// variable `x` and `eml` alone.
pub open spec fn is_snapped(e: Expr) -> bool
    decreases e,
{
    match e {
        Expr::Const(c) => c == ONE_BITS,
        Expr::Var => true,
        Expr::Eml(a, b) => is_snapped(*a) && is_snapped(*b),
        _ => false,
    }
}

/// Number of nested `eml` nodes on the longest path from the root.
pub open spec fn eml_depth(e: Expr) -> nat
    decreases e,
{
    match e {
        Expr::Eml(a, b) => 1 + vstd::math::max(eml_depth(*a) as int, eml_depth(*b) as int) as nat,
        Expr::Exp(a) => eml_depth(*a),
        Expr::Ln(a) => eml_depth(*a),
        Expr::Sub(a, b) => vstd::math::max(eml_depth(*a) as int, eml_depth(*b) as int) as nat,
        _ => 0,
    }
}

/// Law: a snapped node is an `eml` node built from `1`, `x` and `eml` alone,
/// with no more nested `eml` nodes than its layer number.
pub proof fn lemma_snap_shape(depth: nat, choices: Seq<usize>, layer: nat, node: nat)
    requires
        1 <= layer,
    ensures
        spec_snap_node(depth, choices, layer, node) is Eml,
        is_snapped(spec_snap_node(depth, choices, layer, node)),
        eml_depth(spec_snap_node(depth, choices, layer, node)) <= layer,
    decreases layer, 1nat,
{
    lemma_snap_input_shape(depth, choices, layer, node, true);
    lemma_snap_input_shape(depth, choices, layer, node, false);
}

/// A snapped input is built from `1`, `x` and `eml` alone, with fewer nested
/// `eml` nodes than its layer number.
proof fn lemma_snap_input_shape(
    depth: nat,
    choices: Seq<usize>,
    layer: nat,
    node: nat,
    is_left: bool,
)
    requires
        1 <= layer,
    ensures
        is_snapped(spec_snap_input(depth, choices, layer, node, is_left)),
        eml_depth(spec_snap_input(depth, choices, layer, node, is_left)) < layer,
    decreases layer, 0nat,
{
    let c = choices[block_index(depth, layer, node, is_left)];
    if c >= 2 && layer > 1 {
        lemma_snap_shape(depth, choices, (layer - 1) as nat, (2 * node + side(is_left)) as nat);
    }
}

/// The `pow2(k)` subexpressions found `k` levels of `eml` below the root,
/// from left to right.
pub open spec fn frontier(e: Expr, k: nat) -> Seq<Expr>
    decreases k,
{
    if k == 0 {
        seq![e]
    } else {
        match e {
            Expr::Eml(l, r) => frontier(*l, (k - 1) as nat) + frontier(*r, (k - 1) as nat),
            _ => Seq::empty(),
        }
    }
}

/// Every input above the leaves takes its child's output.
pub open spec fn takes_children(depth: nat, choices: Seq<usize>) -> bool {
    forall|i: int|
        0 <= i < choices.len() && (#[trigger] spec_input_blocks(depth)[i]).0 > 1 ==> choices[i]
            == 2
}

/// The source that choice 0 or 1 names: the constant `1` or the variable.
pub open spec fn leaf_source(c: usize) -> Expr {
    if c == 0 {
        Expr::Const(ONE_BITS)
    } else {
        Expr::Var
    }
}

/// Law: leaf node `j` snaps to `eml` of the sources chosen for its two
/// inputs, which are inputs `2j` and `2j + 1`.
pub proof fn lemma_snap_leaf(depth: nat, choices: Seq<usize>, j: nat)
    requires
        depth_fits(depth),
        1 <= depth,
        valid_choices(depth, choices),
        j < layer_nodes(depth, 1),
    ensures
        spec_snap_node(depth, choices, 1, j) == Expr::Eml(
            Box::new(leaf_source(choices[(2 * j) as int])),
            Box::new(leaf_source(choices[(2 * j + 1) as int])),
        ),
{
    lemma_input_blocks_lookup(depth, 1, j, true);
    lemma_input_blocks_lookup(depth, 1, j, false);
    assert(block_index(depth, 1, j, true) == 2 * j);
    assert(block_index(depth, 1, j, false) == 2 * j + 1);
}

/// Law: an input that chooses 0 snaps to the constant `1`, one that chooses
/// 1 to the variable, and one above the leaves that chooses 2 to the
/// snapped node `2·node + side` of the layer below: the child that
/// `input_source` reports.
pub proof fn lemma_snap_input_sources(
    depth: nat,
    choices: Seq<usize>,
    layer: nat,
    node: nat,
    is_left: bool,
)
    requires
        1 <= layer,
    ensures
        choices[block_index(depth, layer, node, is_left)] == 0 ==> spec_snap_input(
            depth,
            choices,
            layer,
            node,
            is_left,
        ) == Expr::Const(ONE_BITS),
        choices[block_index(depth, layer, node, is_left)] == 1 ==> spec_snap_input(
            depth,
            choices,
            layer,
            node,
            is_left,
        ) == Expr::Var,
        layer > 1 && choices[block_index(depth, layer, node, is_left)] == 2 ==> spec_snap_input(
            depth,
            choices,
            layer,
            node,
            is_left,
        ) == spec_snap_node(
            depth,
            choices,
            (layer - 1) as nat,
            (2 * node + (if is_left { 0nat } else { 1nat })) as nat,
        ),
{
}

/// Law: when every input above the leaves takes its child, the snapped node
/// `node` on `layer` has, `layer - 1` levels below its root, the snapped
/// leaf nodes `node·2^(layer-1)` up to `(node+1)·2^(layer-1) - 1`, each
/// exactly once and in order.
pub proof fn lemma_snap_leaves_in_order(depth: nat, choices: Seq<usize>, layer: nat, node: nat)
    requires
        depth_fits(depth),
        valid_choices(depth, choices),
        takes_children(depth, choices),
        1 <= layer <= depth,
        node < layer_nodes(depth, layer),
    ensures
        frontier(spec_snap_node(depth, choices, layer, node), (layer - 1) as nat) == Seq::new(
            pow2((layer - 1) as nat),
            |j: int| spec_snap_node(depth, choices, 1, (node * pow2((layer - 1) as nat) + j) as nat),
        ),
    decreases layer,
{
    let p = pow2((layer - 1) as nat);
    if layer == 1 {
        vstd::arithmetic::power2::lemma2_to64();
        assert(p == 1);
        assert(node * p == node) by (nonlinear_arith)
            requires
                p == 1,
        ;
        assert(frontier(spec_snap_node(depth, choices, layer, node), 0) =~= Seq::new(
            p,
            |j: int| spec_snap_node(depth, choices, 1, (node * p + j) as nat),
        ));
    } else {
        let q = pow2((layer - 2) as nat);
        lemma_pow2_unfold((layer - 1) as nat);
        lemma_pow2_unfold((depth - (layer - 1)) as nat);
        assert(p == 2 * q);
        assert(layer_nodes(depth, (layer - 1) as nat) == 2 * layer_nodes(depth, layer));
        lemma_input_blocks_lookup(depth, layer, node, true);
        lemma_input_blocks_lookup(depth, layer, node, false);
        let il = block_index(depth, layer, node, true);
        let ir = block_index(depth, layer, node, false);
        assert(spec_input_blocks(depth)[il].0 > 1);
        assert(spec_input_blocks(depth)[ir].0 > 1);
        assert(choices[il] == 2);
        assert(choices[ir] == 2);
        let left = spec_snap_node(depth, choices, (layer - 1) as nat, 2 * node);
        let right = spec_snap_node(depth, choices, (layer - 1) as nat, 2 * node + 1);
        assert(spec_snap_input(depth, choices, layer, node, true) == left);
        assert(spec_snap_input(depth, choices, layer, node, false) == right);
        lemma_snap_leaves_in_order(depth, choices, (layer - 1) as nat, 2 * node);
        lemma_snap_leaves_in_order(depth, choices, (layer - 1) as nat, 2 * node + 1);
        assert((2 * node) * q == node * p) by (nonlinear_arith)
            requires
                p == 2 * q,
        ;
        assert((2 * node + 1) * q == node * p + q) by (nonlinear_arith)
            requires
                p == 2 * q,
        ;
        assert(frontier(spec_snap_node(depth, choices, layer, node), (layer - 1) as nat)
            =~= Seq::new(
            p,
            |j: int| spec_snap_node(depth, choices, 1, (node * p + j) as nat),
        ));
    }
}

impl View for TreeLayout {
    type V = nat;

    /// The depth of the tree.
    closed spec fn view(&self) -> nat {
        self.depth as nat
    }
}

impl TreeLayout {
    #[verifier::type_invariant]
    spec fn inv(self) -> bool {
        &&& self.depth >= 1
        &&& depth_fits(self.depth as nat)
        &&& self.blocks@ == spec_input_blocks(self.depth as nat)
    }

    /// The layout of a tree of the given depth; a depth of 0 is refused.
    pub fn new(depth: usize) -> (r: Result<TreeLayout, Error>)
        requires
            depth_fits(depth as nat),
        ensures
            match r {
                Ok(layout) => depth >= 1 && layout@ == depth,
                Err(e) => depth == 0 && e == Error::InvalidDepth(depth),
            },
    {
        if depth == 0 {
            return Err(Error::InvalidDepth(depth));
        }
        let blocks = input_blocks(depth);
        Ok(TreeLayout { depth, blocks })
    }

    /// The layout of a tree of the given depth whose initial logits number
    /// `n_init`: refused when the depth is 0, or when `n_init` is not
    /// `n_params(depth)`.
    pub fn for_init(depth: usize, n_init: usize) -> (r: Result<TreeLayout, Error>)
        requires
            depth_fits(depth as nat),
        ensures
            match r {
                Ok(layout) => depth >= 1 && n_init == spec_n_params(depth as nat) && layout@
                    == depth,
                Err(e) => {
                    ||| depth == 0 && e == Error::InvalidDepth(depth)
                    ||| depth >= 1 && n_init != spec_n_params(depth as nat) && e
                        == Error::ParamCountMismatch {
                        expected: spec_n_params(depth as nat) as usize,
                        got: n_init,
                    }
                },
            },
    {
        if depth == 0 {
            return Err(Error::InvalidDepth(depth));
        }
        let expected = n_params(depth);
        if n_init != expected {
            return Err(Error::ParamCountMismatch { expected, got: n_init });
        }
        TreeLayout::new(depth)
    }

    pub fn depth(&self) -> (d: usize)
        ensures
            d == self@,
            d >= 1,
            depth_fits(d as nat),
    {
        proof {
            use_type_invariant(self);
        }
        self.depth
    }

    /// Number of `eml` nodes on `layer` (1 = leaves): `2^(depth - layer)`.
    pub fn nodes_on_layer(&self, layer: usize) -> (n: usize)
        requires
            1 <= layer <= self@,
        ensures
            n == layer_nodes(self@, layer as nat),
    {
        proof {
            use_type_invariant(self);
            lemma_shift_is_layer_nodes(self.depth, layer);
        }
        1usize << (self.depth - layer)
    }

    /// Number of inputs of the tree, one parameter block each:
    /// `2·(2^depth − 1)`.
    pub fn n_inputs(&self) -> (n: usize)
        ensures
            n == 2 * (pow2(self@) - 1),
            n == spec_input_blocks(self@).len(),
    {
        proof {
            use_type_invariant(self);
            lemma_input_blocks_len(self@);
        }
        self.blocks.len()
    }

    /// Number of logits of the tree: `5·2^depth − 6`.
    pub fn n_params(&self) -> (n: usize)
        ensures
            n == spec_n_params(self@),
    {
        proof {
            use_type_invariant(self);
        }
        n_params(self.depth)
    }

    /// The parameter block of every input, as `input_blocks` lays them out.
    pub fn blocks(&self) -> (b: &Vec<Block>)
        ensures
            b@ == spec_input_blocks(self@),
    {
        proof {
            use_type_invariant(self);
        }
        &self.blocks
    }

    /// Position of the block of input (`layer`, `node`, `is_left`).
    pub fn find_block(&self, layer: usize, node: usize, is_left: bool) -> (i: usize)
        requires
            1 <= layer <= self@,
            node < layer_nodes(self@, layer as nat),
        ensures
            i == block_index(self@, layer as nat, node as nat, is_left),
            i < spec_input_blocks(self@).len(),
    {
        proof {
            use_type_invariant(self);
            lemma_input_blocks_lookup(self@, layer as nat, node as nat, is_left);
        }
        let ghost target = block_index(self@, layer as nat, node as nat, is_left);
        let mut i: usize = 0;
        while i < self.blocks.len()
            invariant
                i <= self.blocks@.len(),
                self.blocks@ == spec_input_blocks(self@),
                depth_fits(self@),
                0 <= target < self.blocks@.len(),
                self.blocks@[target] == (
                    layer,
                    node,
                    is_left,
                    self.blocks@[target].3,
                    self.blocks@[target].4,
                ),
                forall|j: int|
                    0 <= j < i ==> !(#[trigger] self.blocks@[j].0 == layer && self.blocks@[j].1
                        == node && self.blocks@[j].2 == is_left),
            decreases self.blocks@.len() - i,
        {
            let b = self.blocks[i];
            if b.0 == layer && b.1 == node && b.2 == is_left {
                proof {
                    lemma_input_blocks_unique(self@, i as int);
                }
                return i;
            }
            i = i + 1;
        }
        assert(!(self.blocks@[target].0 == layer && self.blocks@[target].1 == node
            && self.blocks@[target].2 == is_left));
        i
    }

    /// The selector logits of input (`layer`, `node`, `is_left`) and the
    /// child node whose output is its third source.
    pub fn input_source(&self, layer: usize, node: usize, is_left: bool) -> (r: InputSource)
        requires
            1 <= layer <= self@,
            node < layer_nodes(self@, layer as nat),
        ensures
            r.start == params_before(self@, layer as nat) + (2 * node + side(is_left))
                * logits_per_input(layer as nat),
            r.n_logits == logits_per_input(layer as nat),
            r.start + r.n_logits <= spec_n_params(self@),
            r.child == (if layer == 1 {
                None
            } else {
                Some((2 * node + side(is_left)) as usize)
            }),
            layer > 1 ==> 2 * node + side(is_left) < layer_nodes(self@, (layer - 1) as nat),
    {
        proof {
            use_type_invariant(self);
            lemma_input_blocks_lookup(self@, layer as nat, node as nat, is_left);
            lemma_input_blocks_tile(self@);
            lemma_input_blocks_unique(self@, block_index(self@, layer as nat, node as nat, is_left));
            lemma_block_within_params(self@, block_index(self@, layer as nat, node as nat, is_left));
            if layer > 1 {
                lemma_pow2_unfold((self@ - (layer - 1)) as nat);
            }
        }
        let i = self.find_block(layer, node, is_left);
        let b = self.blocks[i];
        let child = if layer == 1 {
            None
        } else {
            Some(2 * node + if is_left { 0 } else { 1 })
        };
        InputSource { start: b.3, n_logits: b.4, child }
    }

    /// Convert a trained tree into a discrete `Expr`: `choices` gives, for
    /// every input in block order, the source whose logit is largest
    /// (0 for `1`, 1 for `x`, 2 for the child output).
    pub fn snap(&self, choices: &Vec<usize>) -> (e: Expr)
        requires
            valid_choices(self@, choices@),
        ensures
            e == spec_snap_node(self@, choices@, self@, 0),
            e is Eml,
            is_snapped(e),
            eml_depth(e) <= self@,
    {
        proof {
            use_type_invariant(self);
            lemma_snap_shape(self@, choices@, self@, 0);
            vstd::arithmetic::power2::lemma_pow2_pos(0);
        }
        self.snap_node(choices, self.depth, 0)
    }

    fn snap_node(&self, choices: &Vec<usize>, layer: usize, node: usize) -> (e: Expr)
        requires
            valid_choices(self@, choices@),
            1 <= layer <= self@,
            node < layer_nodes(self@, layer as nat),
        ensures
            e == spec_snap_node(self@, choices@, layer as nat, node as nat),
        decreases layer, 1nat,
    {
        let left = self.snap_input(choices, layer, node, true);
        let right = self.snap_input(choices, layer, node, false);
        Expr::Eml(Box::new(left), Box::new(right))
    }

    fn snap_input(&self, choices: &Vec<usize>, layer: usize, node: usize, is_left: bool) -> (e:
        Expr)
        requires
            valid_choices(self@, choices@),
            1 <= layer <= self@,
            node < layer_nodes(self@, layer as nat),
        ensures
            e == spec_snap_input(self@, choices@, layer as nat, node as nat, is_left),
        decreases layer, 0nat,
    {
        proof {
            use_type_invariant(self);
            lemma_input_blocks_lookup(self@, layer as nat, node as nat, is_left);
        }
        let i = self.find_block(layer, node, is_left);
        let c = choices[i];
        if c == 0 {
            Expr::Const(ONE_BITS)
        } else if c == 1 {
            Expr::Var
        } else {
            proof {
                lemma_pow2_unfold((self@ - (layer - 1)) as nat);
            }
            let child = 2 * node + if is_left { 0 } else { 1 };
            self.snap_node(choices, layer - 1, child)
        }
    }
}

/// Every block ends within the parameter vector.
proof fn lemma_block_within_params(depth: nat, i: int)
    requires
        depth >= 1,
        depth_fits(depth),
        0 <= i < spec_input_blocks(depth).len(),
    ensures
        spec_input_blocks(depth)[i].3 + spec_input_blocks(depth)[i].4 <= spec_n_params(depth),
    decreases spec_input_blocks(depth).len() - i,
{
    lemma_input_blocks_tile(depth);
    let s = spec_input_blocks(depth);
    if i < s.len() - 1 {
        lemma_block_within_params(depth, i + 1);
        assert(s[i + 1].3 == s[i].3 + s[i].4);
    }
}

} // verus!
