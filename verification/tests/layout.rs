use eml_sr::error::Error;
use eml_sr::expr::{Expr, ONE_BITS};
use eml_sr::layout::{InputSource, TreeLayout};

fn eml(a: Expr, b: Expr) -> Expr {
    Expr::Eml(Box::new(a), Box::new(b))
}

fn one() -> Expr {
    Expr::Const(ONE_BITS)
}

#[test]
fn layout_rejects_depth_zero() {
    assert_eq!(TreeLayout::new(0).err(), Some(Error::InvalidDepth(0)));
    assert_eq!(TreeLayout::for_init(0, 4).err(), Some(Error::InvalidDepth(0)));
}

#[test]
fn layout_rejects_wrong_param_count() {
    assert_eq!(
        TreeLayout::for_init(2, 13).err(),
        Some(Error::ParamCountMismatch { expected: 14, got: 13 })
    );
    let layout = TreeLayout::for_init(2, 14).unwrap();
    assert_eq!(layout.depth(), 2);
}

#[test]
fn layout_counts() {
    let layout = TreeLayout::new(3).unwrap();
    assert_eq!(layout.depth(), 3);
    assert_eq!(layout.n_inputs(), 14);
    assert_eq!(layout.n_params(), 34);
    assert_eq!(layout.blocks().len(), 14);
}

#[test]
fn nodes_per_layer() {
    let layout = TreeLayout::new(4).unwrap();
    assert_eq!(layout.nodes_on_layer(1), 8);
    assert_eq!(layout.nodes_on_layer(2), 4);
    assert_eq!(layout.nodes_on_layer(4), 1);
}

#[test]
fn find_block_positions() {
    let layout = TreeLayout::new(3).unwrap();
    // 8 leaf inputs, then 4 inputs on layer 2, then the root's two inputs.
    assert_eq!(layout.find_block(1, 0, true), 0);
    assert_eq!(layout.find_block(1, 3, false), 7);
    assert_eq!(layout.find_block(2, 1, true), 10);
    assert_eq!(layout.find_block(3, 0, false), 13);
}

#[test]
fn input_sources() {
    let layout = TreeLayout::new(2).unwrap();
    assert_eq!(
        layout.input_source(1, 1, false),
        InputSource { start: 6, n_logits: 2, child: None }
    );
    assert_eq!(
        layout.input_source(2, 0, true),
        InputSource { start: 8, n_logits: 3, child: Some(0) }
    );
    assert_eq!(
        layout.input_source(2, 0, false),
        InputSource { start: 11, n_logits: 3, child: Some(1) }
    );
}

#[test]
fn snap_depth_one() {
    let layout = TreeLayout::new(1).unwrap();
    assert_eq!(layout.snap(&vec![0, 0]), eml(one(), one()));
    assert_eq!(layout.snap(&vec![1, 0]), eml(Expr::Var, one()));
    assert_eq!(layout.snap(&vec![0, 1]), eml(one(), Expr::Var));
}

#[test]
fn snap_depth_two_takes_children() {
    let layout = TreeLayout::new(2).unwrap();
    // leaves: node 0 = eml(x, 1), node 1 = eml(1, x); root = eml(child 0, 1)
    let e = layout.snap(&vec![1, 0, 0, 1, 2, 0]);
    assert_eq!(e, eml(eml(Expr::Var, one()), one()));
    let e = layout.snap(&vec![1, 0, 0, 1, 2, 2]);
    assert_eq!(e, eml(eml(Expr::Var, one()), eml(one(), Expr::Var)));
    let e = layout.snap(&vec![1, 0, 0, 1, 1, 0]);
    assert_eq!(e, eml(Expr::Var, one()));
}

#[test]
fn snapped_then_simplified() {
    let layout = TreeLayout::new(2).unwrap();
    let e = layout.snap(&vec![1, 0, 0, 1, 2, 0]).simplify();
    let exp_x = Expr::Exp(Box::new(Expr::Var));
    assert_eq!(e, Expr::Exp(Box::new(exp_x)));
}
