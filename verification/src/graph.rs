//! The graph arena: nodes and relations that refer to one another by
//! position, with the adjacency lists kept exact, and the selection of the
//! forces that act on a node.

use crate::model::{Node, Relation};
use vstd::prelude::*;

verus! {

/// `list` is the rising enumeration of the positions below `n` that are
/// `wanted`.
pub open spec fn selects(list: Seq<usize>, n: nat, wanted: spec_fn(int) -> bool) -> bool {
    &&& forall|a: int, b: int| 0 <= a < b < list.len() ==> list[a] < list[b]
    &&& forall|a: int| 0 <= a < list.len() ==> (#[trigger] list[a]) < n && wanted(list[a] as int)
    &&& forall|p: int|
        0 <= p < n && #[trigger] wanted(p) ==> exists|a: int|
            0 <= a < list.len() && #[trigger] list[a] == p
}

/// The relations that leave the node at position `i`.
pub open spec fn leaves<W>(relations: Seq<Relation<W>>, i: int) -> spec_fn(int) -> bool {
    |r: int| relations[r].from == i
}

/// The relations that reach the node at position `i`.
pub open spec fn reaches<W>(relations: Seq<Relation<W>>, i: int) -> spec_fn(int) -> bool {
    |r: int| relations[r].to == i
}

/// The nodes whose identity is not that of the node at position `i`.
pub open spec fn differs<B>(nodes: Seq<Node<B>>, i: int) -> spec_fn(int) -> bool {
    |j: int| nodes[j].id != nodes[i].id
}

/// Both endpoints of every relation are positions of the node array.
pub open spec fn endpoints_valid<W>(relations: Seq<Relation<W>>, node_count: nat) -> bool {
    forall|r: int|
        0 <= r < relations.len() ==> (#[trigger] relations[r]).from < node_count && relations[r].to
            < node_count
}

/// The adjacency lists hold exactly the first `n` relations.
pub open spec fn registered<B, W>(
    nodes: Seq<Node<B>>,
    relations: Seq<Relation<W>>,
    n: nat,
) -> bool {
    forall|i: int|
        0 <= i < nodes.len() ==> selects((#[trigger] nodes[i]).from@, n, leaves(relations, i))
            && selects(nodes[i].to@, n, reaches(relations, i))
}

/// Referential integrity of a graph: every relation joins two nodes of the
/// graph, and every node lists exactly the relations that touch it.
pub open spec fn well_formed<B, W>(nodes: Seq<Node<B>>, relations: Seq<Relation<W>>) -> bool {
    &&& endpoints_valid(relations, nodes.len())
    &&& registered(nodes, relations, relations.len())
}

/// `after` holds the nodes of `before`, each with its identity and its body.
pub open spec fn same_bodies<B>(before: Seq<Node<B>>, after: Seq<Node<B>>) -> bool {
    &&& after.len() == before.len()
    &&& forall|i: int|
        0 <= i < before.len() ==> (#[trigger] after[i]).id == before[i].id && after[i].body
            == before[i].body
}

/// The spring terms of the node at position `i`: one for each relation in
/// `outgoing`, then one, reversed, for each relation in `incoming`.
pub open spec fn spring_terms(outgoing: Seq<usize>, incoming: Seq<usize>) -> Seq<Spring> {
    Seq::new(
        outgoing.len() + incoming.len(),
        |k: int|
            if k < outgoing.len() {
                Spring { relation: outgoing[k], reversed: false }
            } else {
                Spring { relation: incoming[k - outgoing.len()], reversed: true }
            },
    )
}

/// An enumeration is determined by what it selects: two lists that select
/// the same positions are equal.
pub proof fn lemma_selects_is_unique(
    first: Seq<usize>,
    second: Seq<usize>,
    n: nat,
    wanted: spec_fn(int) -> bool,
)
    requires
        selects(first, n, wanted),
        selects(second, n, wanted),
    ensures
        first == second,
    decreases n,
{
    if n == 0 {
        assert(first.len() == 0) by {
            if first.len() > 0 {
                assert(first[0] < n);
            }
        }
        assert(second.len() == 0) by {
            if second.len() > 0 {
                assert(second[0] < n);
            }
        }
        assert(first =~= second);
    } else {
        let m = (n - 1) as nat;
        let first_rest = if wanted(m as int) {
            first.drop_last()
        } else {
            first
        };
        let second_rest = if wanted(m as int) {
            second.drop_last()
        } else {
            second
        };
        lemma_selects_shrinks(first, n, wanted);
        lemma_selects_shrinks(second, n, wanted);
        lemma_selects_is_unique(first_rest, second_rest, m, wanted);
        if wanted(m as int) {
            assert(first =~= first_rest.push(first.last()));
            assert(second =~= second_rest.push(second.last()));
        }
    }
}

/// Taking the last position away from an enumeration: if it is wanted it is
/// the last entry, and the entries before it enumerate the positions below.
pub proof fn lemma_selects_shrinks(list: Seq<usize>, n: nat, wanted: spec_fn(int) -> bool)
    requires
        n > 0,
        selects(list, n, wanted),
    ensures
        wanted(n - 1) ==> list.len() > 0 && list.last() == n - 1 && selects(
            list.drop_last(),
            (n - 1) as nat,
            wanted,
        ),
        !wanted(n - 1) ==> selects(list, (n - 1) as nat, wanted),
{
    let m = n - 1;
    if wanted(m) {
        let at = choose|at: int| 0 <= at < list.len() && #[trigger] list[at] == m;
        assert(at == list.len() - 1) by {
            if at < list.len() - 1 {
                assert(list[at] < list[list.len() - 1]);
                assert(list[list.len() - 1] < n);
            }
        }
        let rest = list.drop_last();
        assert forall|p: int| 0 <= p < m && #[trigger] wanted(p) implies exists|a: int|
            0 <= a < rest.len() && #[trigger] rest[a] == p by {
            let q = choose|q: int| 0 <= q < list.len() && #[trigger] list[q] == p;
            assert(q != list.len() - 1);
            assert(rest[q] == p);
        }
        assert forall|a: int| 0 <= a < rest.len() implies (#[trigger] rest[a]) < m && wanted(
            rest[a] as int,
        ) by {
            assert(list[a] < list[list.len() - 1]);
        }
    } else {
        assert forall|a: int| 0 <= a < list.len() implies (#[trigger] list[a]) < m && wanted(
            list[a] as int,
        ) by {
            assert(list[a] < n && wanted(list[a] as int));
        }
    }
}

/// Extending an enumeration by the next position: it is appended if it is
/// wanted, and left out if it is not.
pub proof fn lemma_selects_grows(list: Seq<usize>, n: nat, wanted: spec_fn(int) -> bool)
    requires
        n <= usize::MAX,
        selects(list, n, wanted),
    ensures
        wanted(n as int) ==> selects(list.push(n as usize), n + 1, wanted),
        !wanted(n as int) ==> selects(list, n + 1, wanted),
{
    if wanted(n as int) {
        let more = list.push(n as usize);
        assert forall|p: int| 0 <= p < n + 1 && #[trigger] wanted(p) implies exists|a: int|
            0 <= a < more.len() && #[trigger] more[a] == p by {
            if p < n {
                let q = choose|q: int| 0 <= q < list.len() && #[trigger] list[q] == p;
                assert(more[q] == p);
            } else {
                assert(more[list.len() as int] == p);
            }
        }
    }
}

/// A node never repels itself: none of its repellers bears its identity, so
/// its own position is never among them.
pub proof fn lemma_node_never_repels_itself<B>(nodes: Seq<Node<B>>, i: int, others: Seq<usize>)
    requires
        0 <= i < nodes.len(),
        selects(others, nodes.len(), differs(nodes, i)),
    ensures
        forall|a: int|
            0 <= a < others.len() ==> (#[trigger] others[a]) != i && nodes[others[a] as int].id
                != nodes[i].id,
{
}

/// Where every node bears the identity of the node at position `i`, nothing
/// repels that node: only its springs act on it.
pub proof fn lemma_lone_identity_is_not_repelled<B>(
    nodes: Seq<Node<B>>,
    i: int,
    others: Seq<usize>,
)
    requires
        0 <= i < nodes.len(),
        selects(others, nodes.len(), differs(nodes, i)),
        forall|j: int| 0 <= j < nodes.len() ==> (#[trigger] nodes[j]).id == nodes[i].id,
    ensures
        others.len() == 0,
{
    if others.len() > 0 {
        assert(differs(nodes, i)(others[0] as int));
    }
}

/// Repulsion is mutual: one node is among the repellers of another if and
/// only if the other is among its own.
pub proof fn lemma_repulsion_is_mutual<B>(
    nodes: Seq<Node<B>>,
    i: int,
    j: int,
    of_i: Seq<usize>,
    of_j: Seq<usize>,
)
    requires
        0 <= i < nodes.len(),
        0 <= j < nodes.len(),
        selects(of_i, nodes.len(), differs(nodes, i)),
        selects(of_j, nodes.len(), differs(nodes, j)),
    ensures
        (exists|a: int| 0 <= a < of_i.len() && #[trigger] of_i[a] == j) <==> (exists|b: int|
            0 <= b < of_j.len() && #[trigger] of_j[b] == i),
{
    if exists|a: int| 0 <= a < of_i.len() && #[trigger] of_i[a] == j {
        let a = choose|a: int| 0 <= a < of_i.len() && #[trigger] of_i[a] == j;
        assert(differs(nodes, i)(of_i[a] as int));
        assert(differs(nodes, j)(i));
    }
    if exists|b: int| 0 <= b < of_j.len() && #[trigger] of_j[b] == i {
        let b = choose|b: int| 0 <= b < of_j.len() && #[trigger] of_j[b] == i;
        assert(differs(nodes, j)(of_j[b] as int));
        assert(differs(nodes, i)(j));
    }
}

/// Where identities are unique, every node but the node itself repels it.
pub proof fn lemma_every_other_node_repels<B>(
    nodes: Seq<Node<B>>,
    i: int,
    j: int,
    others: Seq<usize>,
)
    requires
        0 <= i < nodes.len(),
        0 <= j < nodes.len(),
        i != j,
        selects(others, nodes.len(), differs(nodes, i)),
        forall|a: int, b: int|
            0 <= a < b < nodes.len() ==> (#[trigger] nodes[a]).id != (#[trigger] nodes[b]).id,
    ensures
        exists|a: int| 0 <= a < others.len() && #[trigger] others[a] == j,
{
    if i < j {
        assert(nodes[i].id != nodes[j].id);
    } else {
        assert(nodes[j].id != nodes[i].id);
    }
    assert(differs(nodes, i)(j));
}

/// In a well-formed graph the spring terms of a node are exactly the
/// relations that touch it: a term that is not reversed pulls along a
/// relation that leaves the node, a reversed one along a relation that
/// reaches it, and every such relation has its term.
pub proof fn lemma_springs_follow_relations<B, W>(
    nodes: Seq<Node<B>>,
    relations: Seq<Relation<W>>,
    i: int,
)
    requires
        well_formed(nodes, relations),
        0 <= i < nodes.len(),
    ensures
        forall|k: int|
            0 <= k < spring_terms(nodes[i].from@, nodes[i].to@).len() ==> {
                let term = #[trigger] spring_terms(nodes[i].from@, nodes[i].to@)[k];
                &&& term.relation < relations.len()
                &&& !term.reversed ==> relations[term.relation as int].from == i
                &&& term.reversed ==> relations[term.relation as int].to == i
            },
        forall|r: int|
            0 <= r < relations.len() && (#[trigger] relations[r]).from == i ==> spring_terms(
                nodes[i].from@,
                nodes[i].to@,
            ).contains(Spring { relation: r as usize, reversed: false }),
        forall|r: int|
            0 <= r < relations.len() && (#[trigger] relations[r]).to == i ==> spring_terms(
                nodes[i].from@,
                nodes[i].to@,
            ).contains(Spring { relation: r as usize, reversed: true }),
{
    let outgoing = nodes[i].from@;
    let incoming = nodes[i].to@;
    let terms = spring_terms(outgoing, incoming);
    assert(selects(outgoing, relations.len(), leaves(relations, i)));
    assert(selects(incoming, relations.len(), reaches(relations, i)));
    assert forall|k: int| 0 <= k < terms.len() implies {
        let term = #[trigger] terms[k];
        &&& term.relation < relations.len()
        &&& !term.reversed ==> relations[term.relation as int].from == i
        &&& term.reversed ==> relations[term.relation as int].to == i
    } by {
        if k < outgoing.len() {
            assert(leaves(relations, i)(outgoing[k] as int));
        } else {
            assert(reaches(relations, i)(incoming[k - outgoing.len()] as int));
        }
    }
    assert forall|r: int| 0 <= r < relations.len() && (#[trigger] relations[r]).from
        == i implies terms.contains(Spring { relation: r as usize, reversed: false }) by {
        assert(leaves(relations, i)(r));
        let a = choose|a: int| 0 <= a < outgoing.len() && #[trigger] outgoing[a] == r;
        assert(terms[a] == Spring { relation: r as usize, reversed: false });
    }
    assert forall|r: int| 0 <= r < relations.len() && (#[trigger] relations[r]).to
        == i implies terms.contains(Spring { relation: r as usize, reversed: true }) by {
        assert(reaches(relations, i)(r));
        let b = choose|b: int| 0 <= b < incoming.len() && #[trigger] incoming[b] == r;
        assert(terms[outgoing.len() + b] == Spring { relation: r as usize, reversed: true });
    }
}

/// A spring term of a node: the relation that pulls, by its position, and
/// whether its hook vector is to be negated, as it is for a relation that
/// reaches the node.
#[derive(Clone, Copy, Debug, PartialEq, Eq)]
pub struct Spring {
    pub relation: usize,
    pub reversed: bool,
}

/// Why a graph could not be built.
#[derive(Clone, Copy, Debug, PartialEq, Eq)]
pub enum GraphError {
    /// The relation at position `relation` names an endpoint that is no
    /// position of the node array.
    DanglingEndpoint { relation: usize },
}

/// A graph whose adjacency lists are exact.
#[derive(Debug)]
pub struct Graph<B, W> {
    nodes: Vec<Node<B>>,
    relations: Vec<Relation<W>>,
}

impl<B, W> Graph<B, W> {
    /// The nodes, by position.
    pub closed spec fn spec_nodes(&self) -> Seq<Node<B>> {
        self.nodes@
    }

    /// The relations, by position.
    pub closed spec fn spec_relations(&self) -> Seq<Relation<W>> {
        self.relations@
    }

    /// Referential integrity, which every graph has.
    #[verifier::type_invariant]
    pub open spec fn wf(&self) -> bool {
        well_formed(self.spec_nodes(), self.spec_relations())
    }

    /// Builds the graph of `nodes` and `relations`. Whatever the adjacency
    /// lists of `nodes` held is discarded; they are filled from `relations`.
    /// Fails if a relation names an endpoint outside the node array, and
    /// reports the first such relation.
    pub fn new(nodes: Vec<Node<B>>, relations: Vec<Relation<W>>) -> (result: Result<
        Self,
        GraphError,
    >)
        ensures
            match result {
                Ok(graph) => {
                    &&& endpoints_valid(relations@, nodes@.len() as nat)
                    &&& graph.wf()
                    &&& graph.spec_relations() == relations@
                    &&& same_bodies(nodes@, graph.spec_nodes())
                },
                Err(GraphError::DanglingEndpoint { relation }) => {
                    &&& relation < relations@.len()
                    &&& (relations@[relation as int].from >= nodes@.len()
                        || relations@[relation as int].to >= nodes@.len())
                    &&& endpoints_valid(relations@.take(relation as int), nodes@.len() as nat)
                },
            },
    {
        let node_count: usize = nodes.len();
        let mut r: usize = 0;
        while r < relations.len()
            invariant
                r <= relations@.len(),
                node_count == nodes@.len(),
                endpoints_valid(relations@.take(r as int), node_count as nat),
            decreases relations@.len() - r,
        {
            if relations[r].from >= node_count || relations[r].to >= node_count {
                return Err(GraphError::DanglingEndpoint { relation: r });
            }
            assert forall|k: int| 0 <= k < r + 1 implies (#[trigger] relations@.take(
                r + 1,
            )[k]).from < node_count && relations@.take(r + 1)[k].to < node_count by {
                if k < r {
                    assert(relations@.take(r as int)[k] == relations@[k]);
                }
            }
            r += 1;
        }
        assert(relations@.take(r as int) =~= relations@);
        let mut bare = nodes;
        let mut i: usize = 0;
        while i < node_count
            invariant
                i <= node_count,
                node_count == nodes@.len(),
                same_bodies(nodes@, bare@),
                forall|k: int|
                    0 <= k < i ==> (#[trigger] bare@[k]).from@.len() == 0 && bare@[k].to@.len()
                        == 0,
            decreases node_count - i,
        {
            bare[i].from.clear();
            bare[i].to.clear();
            i += 1;
        }
        Ok(Self::assemble(bare, relations))
    }

    /// Builds the graph of nodes that no relation touches yet and of
    /// relations whose endpoints are positions of the node array.
    pub(crate) fn assemble(nodes: Vec<Node<B>>, relations: Vec<Relation<W>>) -> (graph: Self)
        requires
            endpoints_valid(relations@, nodes@.len() as nat),
            forall|i: int|
                0 <= i < nodes@.len() ==> (#[trigger] nodes@[i]).from@.len() == 0 && nodes@[i].to@.len()
                    == 0,
        ensures
            graph.wf(),
            graph.spec_relations() == relations@,
            same_bodies(nodes@, graph.spec_nodes()),
    {
        let mut linked = nodes;
        let mut r: usize = 0;
        while r < relations.len()
            invariant
                r <= relations@.len(),
                endpoints_valid(relations@, nodes@.len() as nat),
                same_bodies(nodes@, linked@),
                registered(linked@, relations@, r as nat),
            decreases relations@.len() - r,
        {
            let ghost before = linked@;
            relations[r].register(r, &mut linked);
            proof {
                assert forall|i: int| 0 <= i < linked@.len() implies selects(
                    (#[trigger] linked@[i]).from@,
                    (r + 1) as nat,
                    leaves(relations@, i),
                ) && selects(linked@[i].to@, (r + 1) as nat, reaches(relations@, i)) by {
                    lemma_selects_grows(before[i].from@, r as nat, leaves(relations@, i));
                    lemma_selects_grows(before[i].to@, r as nat, reaches(relations@, i));
                }
            }
            r += 1;
        }
        Graph { nodes: linked, relations }
    }

    /// The nodes, by position.
    pub fn nodes(&self) -> (nodes: &Vec<Node<B>>)
        ensures
            nodes@ == self.spec_nodes(),
    {
        &self.nodes
    }

    /// The relations, by position.
    pub fn relations(&self) -> (relations: &Vec<Relation<W>>)
        ensures
            relations@ == self.spec_relations(),
    {
        &self.relations
    }

    /// The nodes that repel the node at position `i`: every node of the
    /// graph whose identity differs from its own, in rising order of
    /// position.
    pub fn repellers(&self, i: usize) -> (others: Vec<usize>)
        requires
            i < self.spec_nodes().len(),
        ensures
            selects(others@, self.spec_nodes().len(), differs(self.spec_nodes(), i as int)),
    {
        let mut others: Vec<usize> = Vec::new();
        let id: usize = self.nodes[i].id;
        let mut j: usize = 0;
        while j < self.nodes.len()
            invariant
                j <= self.nodes@.len(),
                i < self.nodes@.len(),
                id == self.nodes@[i as int].id,
                selects(others@, j as nat, differs(self.nodes@, i as int)),
            decreases self.nodes@.len() - j,
        {
            proof {
                lemma_selects_grows(others@, j as nat, differs(self.nodes@, i as int));
            }
            if self.nodes[j].id != id {
                others.push(j);
            }
            j += 1;
        }
        others
    }

    /// The spring terms of the node at position `i`: the relations that
    /// leave it, in rising order of position, then the relations that reach
    /// it, reversed.
    pub fn springs(&self, i: usize) -> (terms: Vec<Spring>)
        requires
            i < self.spec_nodes().len(),
        ensures
            terms@ == spring_terms(self.spec_nodes()[i as int].from@, self.spec_nodes()[i as int].to@),
    {
        let node = &self.nodes[i];
        let mut terms: Vec<Spring> = Vec::new();
        let mut k: usize = 0;
        while k < node.from.len()
            invariant
                k <= node.from@.len(),
                terms@.len() == k,
                forall|a: int|
                    0 <= a < k ==> terms@[a] == (Spring { relation: node.from@[a], reversed: false }),
            decreases node.from@.len() - k,
        {
            terms.push(Spring { relation: node.from[k], reversed: false });
            k += 1;
        }
        let mut k: usize = 0;
        while k < node.to.len()
            invariant
                k <= node.to@.len(),
                terms@.len() == node.from@.len() + k,
                forall|a: int|
                    0 <= a < node.from@.len() ==> terms@[a] == (Spring {
                        relation: node.from@[a],
                        reversed: false,
                    }),
                forall|a: int|
                    0 <= a < k ==> terms@[node.from@.len() + a] == (Spring {
                        relation: node.to@[a],
                        reversed: true,
                    }),
            decreases node.to@.len() - k,
        {
            terms.push(Spring { relation: node.to[k], reversed: true });
            k += 1;
        }
        assert(terms@ =~= spring_terms(node.from@, node.to@)) by {
            assert forall|a: int| 0 <= a < terms@.len() implies terms@[a] == spring_terms(
                node.from@,
                node.to@,
            )[a] by {
                if a >= node.from@.len() {
                    assert(terms@[node.from@.len() + (a - node.from@.len())] == (Spring {
                        relation: node.to@[a - node.from@.len()],
                        reversed: true,
                    }));
                }
            }
        }
        terms
    }
}

} // verus!
