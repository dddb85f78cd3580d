//! Located syntax-tree nodes: the value kinds the external parser
//! produces, each with its source range. Floats are carried as their
//! IEEE-754 bit pattern; the compiler moves them into the bytecode
//! unchanged.

use vstd::prelude::*;
use crate::parser::loc::Range;

verus! {

/// One node of the located syntax tree.
pub struct Node {
    pub value: NodeValue,
    pub range: Range,
}

/// What a node is: a bare or module-qualified symbol, a literal, a call
/// form (list), or a vector literal.
pub enum NodeValue {
    Symbol(Option<String>, String),
    Integer(i64),
    Float(u64),
    String(String),
    List(Vec<Node>),
    Vector(Vec<Node>),
}

/// The mathematical shape of a node.
pub ghost struct NodeS {
    pub value: NodeValueS,
    pub range: Range,
}

/// The mathematical shape of a node's value.
pub ghost enum NodeValueS {
    Symbol(Option<Seq<char>>, Seq<char>),
    Integer(i64),
    Float(u64),
    String(Seq<char>),
    List(Seq<NodeS>),
    Vector(Seq<NodeS>),
}

/// The view of a node.
pub open spec fn node_view(n: Node) -> NodeS
    decreases n,
{
    NodeS { value: node_value_view(n.value), range: n.range }
}

/// The view of a node's value.
pub open spec fn node_value_view(v: NodeValue) -> NodeValueS
    decreases v,
{
    match v {
        NodeValue::Symbol(m, s) => NodeValueS::Symbol(
            match m {
                None => None,
                Some(t) => Some(t@),
            },
            s@,
        ),
        NodeValue::Integer(i) => NodeValueS::Integer(i),
        NodeValue::Float(bits) => NodeValueS::Float(bits),
        NodeValue::String(s) => NodeValueS::String(s@),
        NodeValue::List(ns) => NodeValueS::List(node_views(ns@)),
        NodeValue::Vector(ns) => NodeValueS::Vector(node_views(ns@)),
    }
}

/// The view of a sequence of nodes.
pub open spec fn node_views(ns: Seq<Node>) -> Seq<NodeS>
    decreases ns,
{
    if ns.len() == 0 {
        Seq::empty()
    } else {
        node_views(ns.drop_last()).push(node_view(ns.last()))
    }
}

impl View for Node {
    type V = NodeS;

    open spec fn view(&self) -> NodeS {
        node_view(*self)
    }
}

/// A node sequence and its view have the same length.
pub proof fn lemma_node_views_len(ns: Seq<Node>)
    ensures
        node_views(ns).len() == ns.len(),
    decreases ns,
{
    if ns.len() > 0 {
        lemma_node_views_len(ns.drop_last());
    }
}

/// The view of a node sequence views each node.
pub proof fn lemma_node_views_index(ns: Seq<Node>, i: int)
    requires
        0 <= i < ns.len(),
    ensures
        node_views(ns)[i] == node_view(ns[i]),
    decreases ns,
{
    lemma_node_views_len(ns);
    if i < ns.len() - 1 {
        lemma_node_views_index(ns.drop_last(), i);
    }
}

impl Node {
    /// A node from its value and range.
    pub fn new(value: NodeValue, range: Range) -> (r: Node)
        ensures
            r@ == (NodeS { value: node_value_view(value), range: range }),
    {
        Node { value, range }
    }

    /// A tree is fit for compilation when no list node is empty: an empty
    /// call form has no callee, which the compiler rejects rather than
    /// guesses about. (An empty vector literal is fine.)
    pub fn well_formed(&self) -> (r: bool)
        ensures
            r == spec_node_wf(self@),
        decreases node_size(self@), 0int,
    {
        match &self.value {
            NodeValue::Symbol(_, _) => true,
            NodeValue::Integer(_) => true,
            NodeValue::Float(_) => true,
            NodeValue::String(_) => true,
            NodeValue::List(ns) => {
                if ns.len() == 0 {
                    proof {
                        lemma_node_views_len(ns@);
                    }
                    return false;
                }
                proof {
                    lemma_node_views_len(ns@);
                }
                nodes_well_formed(ns)
            }
            NodeValue::Vector(ns) => {
                proof {
                    lemma_node_views_len(ns@);
                }
                nodes_well_formed(ns)
            }
        }
    }
}

/// Every node in the vector is fit for compilation.
pub fn nodes_well_formed(ns: &Vec<Node>) -> (r: bool)
    ensures
        r == spec_nodes_wf(node_views(ns@)),
    decreases nodes_size(node_views(ns@)), 1int,
{
    let n = ns.len();
    let mut i: usize = 0;
    proof {
        lemma_node_views_len(ns@);
    }
    while i < n
        invariant
            n == ns@.len(),
            i <= n,
            node_views(ns@).len() == n,
            forall|j: int| 0 <= j < i ==> spec_node_wf(#[trigger] node_views(ns@)[j]),
        decreases n - i,
    {
        proof {
            lemma_node_views_index(ns@, i as int);
            lemma_nodes_size_bounds(node_views(ns@), i as int);
        }
        if !ns[i].well_formed() {
            proof {
                lemma_nodes_wf_witness(node_views(ns@), i as int);
            }
            return false;
        }
        i += 1;
    }
    proof {
        lemma_nodes_wf_all(node_views(ns@));
    }
    true
}

/// Structural size of a node shape, for termination measures.
pub open spec fn node_size(n: NodeS) -> nat
    decreases n,
{
    match n.value {
        NodeValueS::List(ns) => 1 + nodes_size(ns),
        NodeValueS::Vector(ns) => 1 + nodes_size(ns),
        _ => 1,
    }
}

/// Total size of a sequence of node shapes.
pub open spec fn nodes_size(ns: Seq<NodeS>) -> nat
    decreases ns,
{
    if ns.len() == 0 {
        0
    } else {
        node_size(ns[0]) + nodes_size(ns.drop_first())
    }
}

/// Every element weighs at least one, and no element outweighs the
/// sequence.
pub proof fn lemma_nodes_size_bounds(ns: Seq<NodeS>, i: int)
    requires
        0 <= i < ns.len(),
    ensures
        node_size(ns[i]) <= nodes_size(ns),
        node_size(ns[i]) >= 1,
    decreases ns.len(),
{
    if i == 0 {
    } else {
        lemma_nodes_size_bounds(ns.drop_first(), i - 1);
        assert(ns.drop_first()[i - 1] == ns[i]);
    }
}

/// Dropping the head of a non-empty sequence strictly shrinks its size.
pub proof fn lemma_nodes_size_drop_first(ns: Seq<NodeS>)
    requires
        ns.len() > 0,
    ensures
        nodes_size(ns.drop_first()) < nodes_size(ns),
{
    lemma_nodes_size_bounds(ns, 0);
}

/// A tree shape is fit for compilation when no list node is empty.
pub open spec fn spec_node_wf(n: NodeS) -> bool
    decreases n,
{
    match n.value {
        NodeValueS::List(ns) => ns.len() > 0 && spec_nodes_wf(ns),
        NodeValueS::Vector(ns) => spec_nodes_wf(ns),
        _ => true,
    }
}

/// Every shape in the sequence is fit for compilation.
pub open spec fn spec_nodes_wf(ns: Seq<NodeS>) -> bool
    decreases ns,
{
    forall|i: int| 0 <= i < ns.len() ==> spec_node_wf(#[trigger] ns[i])
}

/// One unfit element makes the sequence unfit.
pub proof fn lemma_nodes_wf_witness(ns: Seq<NodeS>, i: int)
    requires
        0 <= i < ns.len(),
        !spec_node_wf(ns[i]),
    ensures
        !spec_nodes_wf(ns),
{
}

/// All elements fit means the sequence fits.
pub proof fn lemma_nodes_wf_all(ns: Seq<NodeS>)
    requires
        forall|j: int| 0 <= j < ns.len() ==> spec_node_wf(#[trigger] ns[j]),
    ensures
        spec_nodes_wf(ns),
{
}

} // verus!
