//! Graph entities: nodes with their adjacency lists, and relations.
//!
//! Nodes and relations live in two arrays and refer to one another by
//! position. What a node carries besides its identity (its position, its
//! weight) is its body; the library stores it and never looks into it. The
//! same holds for the squared stiffness of a relation.

use vstd::prelude::*;

verus! {

/// A point of the graph: its identity, its body, and the relations that
/// leave it (`from`) and that reach it (`to`), each by its position in the
/// relation array.
#[derive(Debug)]
pub struct Node<B> {
    pub id: usize,
    pub body: B,
    pub from: Vec<usize>,
    pub to: Vec<usize>,
}

/// A directed edge between the nodes at positions `from` and `to` of the node
/// array.
#[derive(Debug)]
pub struct Relation<W> {
    pub weight_squared: W,
    pub from: usize,
    pub to: usize,
}

impl<B> Node<B> {
    /// A node that no relation touches yet.
    pub fn new(id: usize, body: B) -> (node: Self)
        ensures
            node.id == id,
            node.body == body,
            node.from@ == Seq::<usize>::empty(),
            node.to@ == Seq::<usize>::empty(),
    {
        Node { id, body, from: Vec::new(), to: Vec::new() }
    }
}

impl<W> Relation<W> {
    /// A relation from the node at position `from` to the node at position
    /// `to`.
    pub fn new(weight_squared: W, from: usize, to: usize) -> (relation: Self)
        ensures
            relation.weight_squared == weight_squared,
            relation.from == from,
            relation.to == to,
    {
        Relation { weight_squared, from, to }
    }

    /// Enters this relation, which stands at position `index` of the relation
    /// array, into the adjacency lists of its two endpoints: at the end of
    /// the source's `from` list and of the destination's `to` list. Nothing
    /// else changes.
    pub fn register<B>(&self, index: usize, nodes: &mut Vec<Node<B>>)
        requires
            self.from < old(nodes)@.len(),
            self.to < old(nodes)@.len(),
        ensures
            final(nodes)@.len() == old(nodes)@.len(),
            forall|i: int|
                0 <= i < old(nodes)@.len() ==> {
                    &&& (#[trigger] final(nodes)@[i]).id == old(nodes)@[i].id
                    &&& final(nodes)@[i].body == old(nodes)@[i].body
                    &&& final(nodes)@[i].from@ == if i == self.from {
                        old(nodes)@[i].from@.push(index)
                    } else {
                        old(nodes)@[i].from@
                    }
                    &&& final(nodes)@[i].to@ == if i == self.to {
                        old(nodes)@[i].to@.push(index)
                    } else {
                        old(nodes)@[i].to@
                    }
                },
    {
        nodes[self.from].from.push(index);
        nodes[self.to].to.push(index);
    }
}

} // verus!
