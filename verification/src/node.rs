//! The tree form of one structured-config document: maps with
//! insertion-ordered, unique string keys, ordered arrays, scalars and null.
//! `NodeV` is the mathematical image of a `Node` used by all contracts.

use vstd::prelude::*;

verus! {

broadcast use vstd::std_specs::vec::group_vec_axioms, vstd::seq::group_seq_axioms;

/// One decoded structured-config document (or a subtree of one).
///
/// A numeric scalar that is not an integer is kept as its textual form in
/// `Real`; the pipeline never interprets it, it only carries and re-emits it.
#[derive(Debug, PartialEq, Eq)]
pub enum Node {
    Null,
    Bool(bool),
    Int(i64),
    Real(String),
    Str(String),
    Arr(Vec<Node>),
    Dict(Vec<(String, Node)>),
}

/// The mathematical image of a `Node`.
pub enum NodeV {
    Null,
    Bool(bool),
    Int(int),
    Real(Seq<char>),
    Str(Seq<char>),
    Arr(Seq<NodeV>),
    Dict(Seq<(Seq<char>, NodeV)>),
}

/// The mathematical image of a document tree.
pub open spec fn node_view(n: Node) -> NodeV
    decreases n,
{
    match n {
        Node::Null => NodeV::Null,
        Node::Bool(b) => NodeV::Bool(b),
        Node::Int(i) => NodeV::Int(i as int),
        Node::Real(s) => NodeV::Real(s@),
        Node::Str(s) => NodeV::Str(s@),
        Node::Arr(v) => NodeV::Arr(nodes_view(v@)),
        Node::Dict(es) => NodeV::Dict(entries_view(es@)),
    }
}

/// The image of the element list of an `Arr`.
pub open spec fn nodes_view(s: Seq<Node>) -> Seq<NodeV>
    decreases s,
{
    if s.len() == 0 {
        Seq::empty()
    } else {
        seq![node_view(s[0])] + nodes_view(s.drop_first())
    }
}

/// The image of the entry list of a `Dict`.
pub open spec fn entries_view(s: Seq<(String, Node)>) -> Seq<(Seq<char>, NodeV)>
    decreases s,
{
    if s.len() == 0 {
        Seq::empty()
    } else {
        seq![(s[0].0@, node_view(s[0].1))] + entries_view(s.drop_first())
    }
}

impl View for Node {
    type V = NodeV;

    open spec fn view(&self) -> NodeV {
        node_view(*self)
    }
}

/// `nodes_view` maps the sequence pointwise.
pub proof fn lemma_nodes_view(s: Seq<Node>)
    ensures
        nodes_view(s).len() == s.len(),
        forall|i: int| 0 <= i < s.len() ==> nodes_view(s)[i] == node_view(s[i]),
    decreases s,
{
    if s.len() > 0 {
        lemma_nodes_view(s.drop_first());
        assert forall|i: int| 0 <= i < s.len() implies nodes_view(s)[i] == node_view(s[i]) by {
            if i > 0 {
                assert(s.drop_first()[i - 1] == s[i]);
            }
        }
    }
}

/// `entries_view` maps the entry list pointwise.
pub proof fn lemma_entries_view(s: Seq<(String, Node)>)
    ensures
        entries_view(s).len() == s.len(),
        forall|i: int| 0 <= i < s.len() ==> entries_view(s)[i] == (s[i].0@, node_view(s[i].1)),
    decreases s,
{
    if s.len() > 0 {
        lemma_entries_view(s.drop_first());
        assert forall|i: int| 0 <= i < s.len() implies entries_view(s)[i] == (
        s[i].0@,
        node_view(s[i].1),
        ) by {
            if i > 0 {
                assert(s.drop_first()[i - 1] == s[i]);
            }
        }
    }
}

/// `nodes_view` distributes over concatenation.
pub proof fn lemma_nodes_view_add(s1: Seq<Node>, s2: Seq<Node>)
    ensures
        nodes_view(s1 + s2) == nodes_view(s1) + nodes_view(s2),
{
    lemma_nodes_view(s1);
    lemma_nodes_view(s2);
    lemma_nodes_view(s1 + s2);
    assert(nodes_view(s1 + s2) =~= nodes_view(s1) + nodes_view(s2));
}

/// Deep copy of a document tree.
pub fn clone_node(n: &Node) -> (r: Node)
    ensures
        r@ == n@,
    decreases n,
{
    match n {
        Node::Null => Node::Null,
        Node::Bool(b) => Node::Bool(*b),
        Node::Int(i) => Node::Int(*i),
        Node::Real(s) => Node::Real(s.clone()),
        Node::Str(s) => Node::Str(s.clone()),
        Node::Arr(v) => Node::Arr(clone_nodes(v)),
        Node::Dict(es) => Node::Dict(clone_entries(es)),
    }
}

/// Deep copy of an array's element list.
pub fn clone_nodes(v: &Vec<Node>) -> (r: Vec<Node>)
    ensures
        r@.len() == v@.len(),
        nodes_view(r@) == nodes_view(v@),
    decreases v,
{
    let mut out: Vec<Node> = Vec::new();
    let mut i: usize = 0;
    while i < v.len()
        invariant
            i <= v@.len(),
            out@.len() == i,
            forall|j: int| 0 <= j < i ==> node_view(out@[j]) == node_view(v@[j]),
        decreases v@.len() - i,
    {
        out.push(clone_node(&v[i]));
        i = i + 1;
    }
    proof {
        lemma_nodes_view(out@);
        lemma_nodes_view(v@);
        assert(nodes_view(out@) =~= nodes_view(v@));
    }
    out
}

/// Deep copy of a map's entry list.
pub fn clone_entries(es: &Vec<(String, Node)>) -> (r: Vec<(String, Node)>)
    ensures
        r@.len() == es@.len(),
        entries_view(r@) == entries_view(es@),
    decreases es,
{
    let mut out: Vec<(String, Node)> = Vec::new();
    let mut i: usize = 0;
    while i < es.len()
        invariant
            i <= es@.len(),
            out@.len() == i,
            forall|j: int| 0 <= j < i ==> out@[j].0@ == es@[j].0@ && node_view(out@[j].1)
                == node_view(es@[j].1),
        decreases es@.len() - i,
    {
        let key = es[i].0.clone();
        let val = clone_node(&es[i].1);
        out.push((key, val));
        i = i + 1;
    }
    proof {
        lemma_entries_view(out@);
        lemma_entries_view(es@);
        assert(entries_view(out@) =~= entries_view(es@));
    }
    out
}

} // verus!
