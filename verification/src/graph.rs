//! Expression graphs: nodes added in order, each referring only to earlier nodes.
use crate::expr_error::{EvalError, GraphError};
use crate::id::{AtomId, ExprId};
use crate::rational::ReducedRational;
use crate::storage::{reserve_entries, StorageResource};
use vstd::prelude::*;

verus! {

/// The representation layer of an exact value.
#[derive(Clone, Copy, Debug, Eq, Hash, Ord, PartialEq, PartialOrd, Structural)]
pub enum ExactLayer {
    Monomial,
    FormSum,
    Algebraic,
}

/// A node of an expression graph.
#[derive(Debug, Eq, PartialEq)]
pub enum ExprNode {
    Atom(AtomId),
    Neg(ExprId),
    Add(ExprId, ExprId),
    Sub(ExprId, ExprId),
    Mul(ExprId, ExprId),
    Div(ExprId, ExprId),
    Pow { base: ExprId, exponent: ReducedRational },
}

/// `a` and `b` are the same node: same variant, same children, same exponent.
pub open spec fn same_node(a: ExprNode, b: ExprNode) -> bool {
    match (a, b) {
        (ExprNode::Atom(x), ExprNode::Atom(y)) => x == y,
        (ExprNode::Neg(x), ExprNode::Neg(y)) => x == y,
        (ExprNode::Add(l1, r1), ExprNode::Add(l2, r2)) => l1 == l2 && r1 == r2,
        (ExprNode::Sub(l1, r1), ExprNode::Sub(l2, r2)) => l1 == l2 && r1 == r2,
        (ExprNode::Mul(l1, r1), ExprNode::Mul(l2, r2)) => l1 == l2 && r1 == r2,
        (ExprNode::Div(l1, r1), ExprNode::Div(l2, r2)) => l1 == l2 && r1 == r2,
        (
            ExprNode::Pow { base: b1, exponent: e1 },
            ExprNode::Pow { base: b2, exponent: e2 },
        ) => b1 == b2 && e1@ == e2@,
        _ => false,
    }
}

/// The first child of `node`, left before right, that is not below `next`.
pub open spec fn first_invalid_child(node: ExprNode, next: nat) -> Option<ExprId> {
    match node {
        ExprNode::Atom(_) => None,
        ExprNode::Neg(c) => if c@ < next {
            None
        } else {
            Some(c)
        },
        ExprNode::Add(l, r) | ExprNode::Sub(l, r) | ExprNode::Mul(l, r) | ExprNode::Div(l, r) => {
            if l@ >= next {
                Some(l)
            } else if r@ >= next {
                Some(r)
            } else {
                None
            }
        },
        ExprNode::Pow { base, .. } => if base@ < next {
            None
        } else {
            Some(base)
        },
    }
}

impl ExprNode {
    /// An independent copy.
    pub fn try_clone(&self) -> (r: Result<Self, EvalError>)
        ensures
            match r {
                Ok(v) => same_node(v, *self),
                Err(e) => e matches EvalError::Bigint(b) && b is AllocationFailure,
            },
    {
        match self {
            ExprNode::Atom(atom) => Ok(ExprNode::Atom(*atom)),
            ExprNode::Neg(child) => Ok(ExprNode::Neg(*child)),
            ExprNode::Add(left, right) => Ok(ExprNode::Add(*left, *right)),
            ExprNode::Sub(left, right) => Ok(ExprNode::Sub(*left, *right)),
            ExprNode::Mul(left, right) => Ok(ExprNode::Mul(*left, *right)),
            ExprNode::Div(left, right) => Ok(ExprNode::Div(*left, *right)),
            ExprNode::Pow { base, exponent } => {
                let exponent = clone_exponent(exponent)?;
                Ok(ExprNode::Pow { base: *base, exponent })
            },
        }
    }
}

fn clone_exponent(value: &ReducedRational) -> (r: Result<ReducedRational, EvalError>)
    ensures
        match r {
            Ok(v) => v@ == value@,
            Err(e) => e matches EvalError::Bigint(b) && b is AllocationFailure,
        },
{
    match value.try_clone() {
        Ok(v) => Ok(v),
        Err(error) => Err(EvalError::Bigint(error)),
    }
}

/// An expression graph; a node's children always come before it.
#[derive(Debug, Eq, PartialEq)]
pub struct ExprGraph {
    nodes: Vec<ExprNode>,
}

impl View for ExprGraph {
    type V = Seq<ExprNode>;

    closed spec fn view(&self) -> Seq<ExprNode> {
        self.nodes@
    }
}

impl ExprGraph {
    /// Every node refers only to earlier nodes: holds of every value of this type.
    #[verifier::type_invariant]
    pub open spec fn well_formed(self) -> bool {
        forall|i: int| 0 <= i < self@.len() ==> first_invalid_child(#[trigger] self@[i], i as nat) is None
    }

    /// An empty graph.
    pub fn new() -> (r: Self)
        ensures
            r@.len() == 0,
    {
        ExprGraph { nodes: Vec::new() }
    }

    /// The number of nodes.
    pub fn len(&self) -> (r: usize)
        ensures
            r == self@.len(),
    {
        self.nodes.len()
    }

    /// Whether the graph has no node.
    pub fn is_empty(&self) -> (r: bool)
        ensures
            r == (self@.len() == 0),
    {
        self.nodes.len() == 0
    }

    /// The node with identifier `id`, if present.
    pub fn get(&self, id: ExprId) -> (r: Option<&ExprNode>)
        ensures
            id@ < self@.len() ==> r == Some(&self@[id@ as int]),
            id@ >= self@.len() ==> r is None,
    {
        let index = id.get() as usize;
        if index < self.nodes.len() {
            Some(&self.nodes[index])
        } else {
            None
        }
    }

    /// Adds a node whose children are all earlier nodes, and returns its identifier.
    pub fn push(&mut self, node: ExprNode) -> (r: Result<ExprId, GraphError>)
        ensures
            old(self)@.len() > u32::MAX ==> r == Err::<ExprId, GraphError>(GraphError::IdExhausted)
                && final(self)@ == old(self)@,
            old(self)@.len() <= u32::MAX ==> (first_invalid_child(node, old(self)@.len()) matches Some(
                child,
            ) ==> (r matches Err(GraphError::InvalidChildId { child: c, next: n }) && c == child
                && n@ == old(self)@.len()) && final(self)@ == old(self)@),
            old(self)@.len() <= u32::MAX && first_invalid_child(node, old(self)@.len()) is None
                && old(self)@.len() == usize::MAX ==> r == Err::<ExprId, GraphError>(
                GraphError::IdExhausted,
            ) && final(self)@ == old(self)@,
            old(self)@.len() <= u32::MAX && first_invalid_child(node, old(self)@.len()) is None
                && old(self)@.len() < usize::MAX ==> match r {
                Ok(id) => id@ == old(self)@.len() && final(self)@ == old(self)@.push(node),
                Err(e) => e is Storage && final(self)@ == old(self)@,
            },
    {
        proof {
            use_type_invariant(&*self);
        }
        let next = next_expr_id(self.nodes.len())?;
        validate_children(&node, next)?;
        let required = match self.nodes.len().checked_add(1) {
            Some(value) => value,
            None => return Err(GraphError::IdExhausted),
        };
        let mut nodes = Vec::new();
        core::mem::swap(&mut nodes, &mut self.nodes);
        let reserved = reserve_entries(&mut nodes, required, StorageResource::GraphNodes);
        match reserved {
            Ok(()) => {},
            Err(error) => {
                self.nodes = nodes;
                return Err(GraphError::Storage(error));
            },
        }
        let ghost before = nodes@;
        nodes.push(node);
        proof {
            assert forall|i: int| 0 <= i < nodes@.len() implies first_invalid_child(
                #[trigger] nodes@[i],
                i as nat,
            ) is None by {
                if i < before.len() {
                    assert(nodes@[i] == before[i]);
                }
            }
        }
        self.nodes = nodes;
        Ok(next)
    }

    /// An independent copy, node by node.
    pub fn try_clone(&self) -> (r: Result<Self, GraphError>)
        ensures
            match r {
                Ok(g) => g@.len() == self@.len() && forall|i: int|
                    0 <= i < self@.len() ==> same_node(#[trigger] g@[i], self@[i]),
                Err(e) => e is Storage || e is Node,
            },
    {
        proof {
            use_type_invariant(self);
        }
        let mut nodes: Vec<ExprNode> = Vec::new();
        match reserve_entries(&mut nodes, self.nodes.len(), StorageResource::GraphNodes) {
            Ok(()) => {},
            Err(error) => return Err(GraphError::Storage(error)),
        }
        let mut index: usize = 0;
        while index < self.nodes.len()
            invariant
                index <= self@.len(),
                nodes@.len() == index,
                forall|i: int| 0 <= i < index ==> same_node(#[trigger] nodes@[i], self@[i]),
                forall|i: int| 0 <= i < self@.len() ==> first_invalid_child(#[trigger] self@[i], i as nat) is None,
            decreases self@.len() - index,
        {
            let node = match self.nodes[index].try_clone() {
                Ok(node) => node,
                Err(error) => return Err(graph_node_error(error)),
            };
            nodes.push(node);
            index = index + 1;
        }
        proof {
            assert forall|i: int| 0 <= i < nodes@.len() implies first_invalid_child(
                #[trigger] nodes@[i],
                i as nat,
            ) is None by {
                assert(same_node(nodes@[i], self@[i]));
                assert(first_invalid_child(self@[i], i as nat) is None);
            }
        }
        Ok(ExprGraph { nodes })
    }
}

/// A node that could not be copied.
fn graph_node_error(error: EvalError) -> (r: GraphError)
    ensures
        r == GraphError::Node(error),
{
    GraphError::Node(graph_node_payload(error))
}

fn graph_node_payload(error: EvalError) -> (r: EvalError)
    ensures
        r == error,
{
    error
}

/// The identifier of the node after `length` nodes, unless it exceeds `u32`.
pub fn next_expr_id(length: usize) -> (r: Result<ExprId, GraphError>)
    ensures
        length <= u32::MAX ==> (r matches Ok(id) && id@ == length),
        length > u32::MAX ==> r == Err::<ExprId, GraphError>(GraphError::IdExhausted),
{
    if length <= u32::MAX as usize {
        Ok(ExprId::new(length as u32))
    } else {
        Err(GraphError::IdExhausted)
    }
}

fn validate_child(child: ExprId, next: ExprId) -> (r: Result<(), GraphError>)
    ensures
        child@ < next@ ==> r is Ok,
        child@ >= next@ ==> r == Err::<(), GraphError>(GraphError::InvalidChildId { child, next }),
{
    if child.get() < next.get() {
        Ok(())
    } else {
        Err(GraphError::InvalidChildId { child, next })
    }
}

fn validate_children(node: &ExprNode, next: ExprId) -> (r: Result<(), GraphError>)
    ensures
        match first_invalid_child(*node, next@ as nat) {
            None => r is Ok,
            Some(child) => r == Err::<(), GraphError>(GraphError::InvalidChildId { child, next }),
        },
{
    match node {
        ExprNode::Atom(_) => Ok(()),
        ExprNode::Neg(child) => validate_child(*child, next),
        ExprNode::Add(left, right) | ExprNode::Sub(left, right) | ExprNode::Mul(left, right)
        | ExprNode::Div(left, right) => {
            validate_child(*left, next)?;
            validate_child(*right, next)
        },
        ExprNode::Pow { base, .. } => validate_child(*base, next),
    }
}

} // verus!
