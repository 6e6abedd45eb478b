use neco::{AtomId, BigInt, ExprGraph, ExprId, ExprNode, GraphError, ReducedRational};

fn integer(value: i32) -> ReducedRational {
    ReducedRational::from_bigint(BigInt::try_from(value).unwrap()).unwrap()
}

#[test]
fn graph_clone_preserves_node_order() {
    let mut graph = ExprGraph::new();
    graph.push(ExprNode::Atom(AtomId::new(7))).unwrap();
    graph.push(ExprNode::Neg(ExprId::new(0))).unwrap();

    assert_eq!(graph.try_clone().unwrap(), graph);
}

#[test]
fn graph_accepts_every_node_variant_in_addition_order() {
    let mut graph = ExprGraph::new();
    let atom = graph.push(ExprNode::Atom(AtomId::new(9))).unwrap();
    let neg = graph.push(ExprNode::Neg(atom)).unwrap();
    let add = graph.push(ExprNode::Add(atom, neg)).unwrap();
    let sub = graph.push(ExprNode::Sub(add, atom)).unwrap();
    let mul = graph.push(ExprNode::Mul(sub, neg)).unwrap();
    let div = graph.push(ExprNode::Div(mul, atom)).unwrap();
    let pow = graph
        .push(ExprNode::Pow {
            base: div,
            exponent: integer(2),
        })
        .unwrap();

    assert_eq!(
        [atom, neg, add, sub, mul, div, pow],
        [
            ExprId::new(0),
            ExprId::new(1),
            ExprId::new(2),
            ExprId::new(3),
            ExprId::new(4),
            ExprId::new(5),
            ExprId::new(6),
        ]
    );
    assert_eq!(graph.len(), 7);
    assert_eq!(graph.get(ExprId::new(7)), None);
    assert_eq!(graph.try_clone().unwrap(), graph);
}

#[test]
fn graph_rejects_children_that_are_not_earlier() {
    let mut graph = ExprGraph::new();
    let atom = graph.push(ExprNode::Atom(AtomId::new(4))).unwrap();
    assert_eq!(atom, ExprId::new(0));
    let add = graph
        .push(ExprNode::Add(ExprId::new(0), ExprId::new(0)))
        .unwrap();
    assert_eq!(add, ExprId::new(1));
    assert_eq!(
        graph.push(ExprNode::Neg(ExprId::new(2))),
        Err(GraphError::InvalidChildId {
            child: ExprId::new(2),
            next: ExprId::new(2),
        })
    );
    assert_eq!(
        graph.push(ExprNode::Mul(ExprId::new(0), ExprId::new(3))),
        Err(GraphError::InvalidChildId {
            child: ExprId::new(3),
            next: ExprId::new(2),
        })
    );
    assert_eq!(graph.len(), 2);
    assert!(!graph.is_empty());
    assert_eq!(graph.get(ExprId::new(0)), Some(&ExprNode::Atom(AtomId::new(4))));
}
