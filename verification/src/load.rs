//! Loading a graph from records.

use crate::graph::Graph;
use crate::model::{Node, Relation};
use crate::table;
use nohash_hasher::IntMap;
use vstd::prelude::*;

verus! {

/// A node as it is read: its identity and its body.
#[derive(Debug)]
pub struct NodeRecord<B> {
    pub id: usize,
    pub body: B,
}

/// A relation as it is read: its identity, the identities of its two
/// endpoints, and its squared stiffness.
#[derive(Debug)]
pub struct RelationRecord<W> {
    pub id: usize,
    pub from: usize,
    pub to: usize,
    pub weight_squared: W,
}

/// Why a graph could not be loaded.
#[derive(Clone, Copy, Debug, PartialEq, Eq)]
pub enum LoadError {
    /// The relation record at position `record` names the node `node`, and
    /// no node record has that identity.
    MissingNode { record: usize, node: usize },
}

/// The identities of node records, in order.
pub open spec fn node_ids<B>(records: Seq<NodeRecord<B>>) -> Seq<usize> {
    Seq::new(records.len(), |j: int| records[j].id)
}

/// The identities of relation records, in order.
pub open spec fn relation_ids<W>(records: Seq<RelationRecord<W>>) -> Seq<usize> {
    Seq::new(records.len(), |j: int| records[j].id)
}

/// For each identity in `ids`, the last position at which it stands.
pub open spec fn latest_rows(ids: Seq<usize>) -> Map<usize, int>
    decreases ids.len(),
{
    if ids.len() == 0 {
        Map::empty()
    } else {
        latest_rows(ids.drop_last()).insert(ids.last(), ids.len() - 1)
    }
}

/// What `latest_rows` is: its keys are the identities that occur in `ids`, and
/// each is mapped to the last position at which it stands.
pub proof fn lemma_latest_rows(ids: Seq<usize>)
    ensures
        forall|id: usize| (#[trigger] latest_rows(ids).contains_key(id)) <==> ids.contains(id),
        forall|id: usize| #[trigger]
            latest_rows(ids).contains_key(id) ==> {
                &&& 0 <= latest_rows(ids)[id] < ids.len()
                &&& ids[latest_rows(ids)[id]] == id
                &&& forall|k: int| latest_rows(ids)[id] < k < ids.len() ==> ids[k] != id
            },
    decreases ids.len(),
{
    if ids.len() > 0 {
        let front = ids.drop_last();
        lemma_latest_rows(front);
        assert forall|id: usize|
            (#[trigger] latest_rows(ids).contains_key(id)) <==> ids.contains(id) by {
            assert(ids[ids.len() - 1] == ids.last());
            if id != ids.last() {
                assert(latest_rows(ids).contains_key(id) <==> latest_rows(front).contains_key(id));
                assert(latest_rows(front).contains_key(id) <==> front.contains(id));
                if ids.contains(id) {
                    let k = choose|k: int| 0 <= k < ids.len() && ids[k] == id;
                    assert(front[k] == id);
                }
                if front.contains(id) {
                    let k = choose|k: int| 0 <= k < front.len() && front[k] == id;
                    assert(ids[k] == id);
                }
            }
        }
        assert forall|id: usize| #[trigger] latest_rows(ids).contains_key(id) implies {
            &&& 0 <= latest_rows(ids)[id] < ids.len()
            &&& ids[latest_rows(ids)[id]] == id
            &&& forall|k: int| latest_rows(ids)[id] < k < ids.len() ==> ids[k] != id
        } by {
            if id != ids.last() {
                assert(latest_rows(front).contains_key(id));
                assert(front[latest_rows(front)[id]] == id);
                assert forall|k: int| latest_rows(ids)[id] < k < ids.len() implies ids[k]
                    != id by {
                    if k < front.len() {
                        assert(front[k] == ids[k]);
                    }
                }
            }
        }
    }
}

/// `table` holds one fresh node for each identity of `records`, with the
/// body of the last record of that identity.
pub open spec fn node_table<B>(records: Seq<NodeRecord<B>>, table: Map<usize, Node<B>>) -> bool {
    let rows = latest_rows(node_ids(records));
    &&& forall|id: usize| table.contains_key(id) <==> rows.contains_key(id)
    &&& forall|id: usize| #[trigger]
        rows.contains_key(id) ==> {
            &&& table[id].id == id
            &&& table[id].body == records[rows[id]].body
            &&& table[id].from@.len() == 0
            &&& table[id].to@.len() == 0
        }
}

/// `index` maps each identity that stands in `nodes` to a position at which
/// it stands, and nothing else.
pub open spec fn node_index<B>(nodes: Seq<Node<B>>, index: Map<usize, usize>) -> bool {
    &&& forall|i: int| 0 <= i < nodes.len() ==> index.contains_key((#[trigger] nodes[i]).id)
    &&& forall|id: usize| #[trigger]
        index.contains_key(id) ==> index[id] < nodes.len() && nodes[index[id] as int].id == id
}

/// `relation` is what `record` says, with each endpoint resolved through
/// `index` to a position of the node array.
pub open spec fn resolves<W>(
    record: RelationRecord<W>,
    index: Map<usize, usize>,
    relation: Relation<W>,
) -> bool {
    &&& index.contains_key(record.from)
    &&& index.contains_key(record.to)
    &&& relation.weight_squared == record.weight_squared
    &&& relation.from == index[record.from]
    &&& relation.to == index[record.to]
}

/// `table` holds one relation for each identity of `records`, made from the
/// last record of that identity.
pub open spec fn relation_table<W>(
    records: Seq<RelationRecord<W>>,
    index: Map<usize, usize>,
    table: Map<usize, Relation<W>>,
) -> bool {
    let rows = latest_rows(relation_ids(records));
    &&& forall|id: usize| table.contains_key(id) <==> rows.contains_key(id)
    &&& forall|id: usize| #[trigger]
        rows.contains_key(id) ==> resolves(records[rows[id]], index, table[id])
}

/// Both endpoints of the first `n` records have an entry in `index`.
pub open spec fn endpoints_indexed<W>(
    records: Seq<RelationRecord<W>>,
    index: Map<usize, usize>,
    n: int,
) -> bool {
    forall|j: int|
        0 <= j < n ==> index.contains_key((#[trigger] records[j]).from) && index.contains_key(
            records[j].to,
        )
}

/// Some node record has the identity `id`.
pub open spec fn knows<B>(records: Seq<NodeRecord<B>>, id: usize) -> bool {
    node_ids(records).contains(id)
}

/// Both endpoints of the first `n` relation records are identities of node
/// records.
pub open spec fn endpoints_known<B, W>(
    nodes: Seq<NodeRecord<B>>,
    relations: Seq<RelationRecord<W>>,
    n: int,
) -> bool {
    forall|j: int|
        0 <= j < n ==> knows(nodes, (#[trigger] relations[j]).from) && knows(
            nodes,
            relations[j].to,
        )
}

/// `nodes` holds one node for each identity of `records`, each identity
/// once, with the body of the last record of that identity.
pub open spec fn nodes_loaded<B>(records: Seq<NodeRecord<B>>, nodes: Seq<Node<B>>) -> bool {
    let rows = latest_rows(node_ids(records));
    &&& forall|a: int, b: int|
        0 <= a < b < nodes.len() ==> (#[trigger] nodes[a]).id != (#[trigger] nodes[b]).id
    &&& forall|i: int|
        0 <= i < nodes.len() ==> rows.contains_key((#[trigger] nodes[i]).id) && nodes[i].body
            == records[rows[nodes[i].id]].body
    &&& forall|id: usize| #[trigger]
        rows.contains_key(id) ==> exists|i: int|
            0 <= i < nodes.len() && (#[trigger] nodes[i]).id == id
}

/// `relation` joins the nodes that `record` names and has its squared
/// stiffness.
pub open spec fn joins<B, W>(
    record: RelationRecord<W>,
    nodes: Seq<Node<B>>,
    relation: Relation<W>,
) -> bool {
    &&& relation.weight_squared == record.weight_squared
    &&& relation.from < nodes.len()
    &&& relation.to < nodes.len()
    &&& nodes[relation.from as int].id == record.from
    &&& nodes[relation.to as int].id == record.to
}

/// `relations` holds the relations of the identities `keys`, in that order,
/// each made from the last record of its identity.
pub open spec fn relations_follow<B, W>(
    records: Seq<RelationRecord<W>>,
    nodes: Seq<Node<B>>,
    relations: Seq<Relation<W>>,
    keys: Seq<usize>,
) -> bool {
    let rows = latest_rows(relation_ids(records));
    &&& keys.no_duplicates()
    &&& keys.len() == relations.len()
    &&& forall|key: usize| keys.contains(key) <==> rows.contains_key(key)
    &&& forall|k: int|
        0 <= k < keys.len() ==> joins(records[rows[keys[k]]], nodes, #[trigger] relations[k])
}

/// `relations` holds one relation for each identity of `records`, in some
/// order, each made from the last record of its identity.
pub open spec fn relations_loaded<B, W>(
    records: Seq<RelationRecord<W>>,
    nodes: Seq<Node<B>>,
    relations: Seq<Relation<W>>,
) -> bool {
    exists|keys: Seq<usize>| relations_follow(records, nodes, relations, keys)
}

/// Builds the node of each record and files it under its identity. Of
/// records with one identity the last one stays.
pub fn read_nodes<B>(records: Vec<NodeRecord<B>>) -> (table: IntMap<usize, Node<B>>)
    ensures
        node_table(records@, table@),
{
    let mut table: IntMap<usize, Node<B>> = IntMap::default();
    for record in it: records
        invariant
            it.seq() == records@,
            node_table(records@.take(it.index() as int), table@),
    {
        let NodeRecord { id, body } = record;
        table::insert(&mut table, id, Node::new(id, body));
        proof {
            let n = it.index() as int;
            let before = node_ids(records@.take(n));
            let after = node_ids(records@.take(n + 1));
            assert(after.drop_last() =~= before);
            assert(after.last() == id);
            lemma_latest_rows(before);
            assert(latest_rows(after) == latest_rows(before).insert(id, n));
            assert forall|other: usize| #[trigger]
                latest_rows(after).contains_key(other) implies {
                &&& table@[other].id == other
                &&& table@[other].body == records@.take(n + 1)[latest_rows(after)[other]].body
                &&& table@[other].from@.len() == 0
                &&& table@[other].to@.len() == 0
            } by {
                if other != id {
                    assert(latest_rows(before).contains_key(other));
                    assert(records@.take(n)[latest_rows(before)[other]] == records@[latest_rows(
                        before,
                    )[other]]);
                }
            }
        }
    }
    proof {
        assert(records@.take(records@.len() as int) =~= records@);
    }
    table
}

/// Files the position of each node under its identity. Where several
/// nodes bear one identity, the position of one of them is filed.
pub fn index_nodes<B>(nodes: &Vec<Node<B>>) -> (index: IntMap<usize, usize>)
    ensures
        node_index(nodes@, index@),
{
    let mut index: IntMap<usize, usize> = IntMap::default();
    let mut i: usize = 0;
    while i < nodes.len()
        invariant
            i <= nodes@.len(),
            node_index(nodes@.take(i as int), index@),
        decreases nodes@.len() - i,
    {
        table::insert(&mut index, nodes[i].id, i);
        proof {
            let grown = nodes@.take(i + 1);
            assert forall|k: int| 0 <= k < grown.len() implies index@.contains_key(
                (#[trigger] grown[k]).id,
            ) by {
                if k < i {
                    assert(nodes@.take(i as int)[k] == grown[k]);
                }
            }
        }
        i += 1;
    }
    proof {
        assert(nodes@.take(i as int) =~= nodes@);
    }
    index
}

/// Builds the relation of each record, its endpoints resolved through
/// `index`, and files it under its identity. Of records with one identity
/// the last one stays. Fails at the first record that names an endpoint
/// without an entry in `index`; of its two endpoints the destination is
/// looked up first.
pub fn read_relations<W>(records: Vec<RelationRecord<W>>, index: &IntMap<usize, usize>) -> (result:
    Result<IntMap<usize, Relation<W>>, LoadError>)
    ensures
        match result {
            Ok(table) => {
                &&& endpoints_indexed(records@, index@, records@.len() as int)
                &&& relation_table(records@, index@, table@)
            },
            Err(LoadError::MissingNode { record, node }) => {
                &&& record < records@.len()
                &&& endpoints_indexed(records@, index@, record as int)
                &&& !index@.contains_key(node)
                &&& (node == records@[record as int].to || (index@.contains_key(
                    records@[record as int].to,
                ) && node == records@[record as int].from))
            },
        },
{
    let mut table: IntMap<usize, Relation<W>> = IntMap::default();
    let count: usize = records.len();
    let mut row: usize = 0;
    for record in it: records
        invariant
            it.seq() == records@,
            records@.len() == count,
            row == it.index(),
            endpoints_indexed(records@, index@, it.index() as int),
            relation_table(records@.take(it.index() as int), index@, table@),
    {
        let RelationRecord { id, from, to, weight_squared } = record;
        let to_node: usize = match table::get(index, to) {
            Some(position) => *position,
            None => {
                return Err(LoadError::MissingNode { record: row, node: to });
            },
        };
        let from_node: usize = match table::get(index, from) {
            Some(position) => *position,
            None => {
                return Err(LoadError::MissingNode { record: row, node: from });
            },
        };
        table::insert(&mut table, id, Relation::new(weight_squared, from_node, to_node));
        proof {
            let n = it.index() as int;
            let before = relation_ids(records@.take(n));
            let after = relation_ids(records@.take(n + 1));
            assert(after.drop_last() =~= before);
            assert(after.last() == id);
            lemma_latest_rows(before);
            assert(latest_rows(after) == latest_rows(before).insert(id, n));
            assert(n < records@.len());
            assert forall|other: usize| #[trigger]
                latest_rows(after).contains_key(other) implies resolves(
                records@.take(n + 1)[latest_rows(after)[other]],
                index@,
                table@[other],
            ) by {
                if other != id {
                    assert(latest_rows(before).contains_key(other));
                    assert(records@.take(n)[latest_rows(before)[other]] == records@[latest_rows(
                        before,
                    )[other]]);
                }
            }
        }
        row += 1;
    }
    proof {
        assert(records@.take(records@.len() as int) =~= records@);
    }
    Ok(table)
}

/// Builds the graph of the records: one node for each node identity and one
/// relation for each relation identity, the last record of an identity
/// deciding, with every relation entered into the adjacency lists of its
/// endpoints. The order of the nodes and of the relations is that in which
/// the tables hand them out. Fails at the first relation record that names
/// an endpoint which no node record has.
pub fn read_all<B, W>(
    node_records: Vec<NodeRecord<B>>,
    relation_records: Vec<RelationRecord<W>>,
) -> (result: Result<Graph<B, W>, LoadError>)
    ensures
        match result {
            Ok(graph) => {
                &&& endpoints_known(
                    node_records@,
                    relation_records@,
                    relation_records@.len() as int,
                )
                &&& graph.wf()
                &&& nodes_loaded(node_records@, graph.spec_nodes())
                &&& relations_loaded(
                    relation_records@,
                    graph.spec_nodes(),
                    graph.spec_relations(),
                )
            },
            Err(LoadError::MissingNode { record, node }) => {
                &&& record < relation_records@.len()
                &&& endpoints_known(node_records@, relation_records@, record as int)
                &&& !knows(node_records@, node)
                &&& (node == relation_records@[record as int].to || (knows(
                    node_records@,
                    relation_records@[record as int].to,
                ) && node == relation_records@[record as int].from))
            },
        },
{
    let node_table = read_nodes(node_records);
    let nodes = table::into_values(node_table);
    let index = index_nodes(&nodes);
    proof {
        let rows = latest_rows(node_ids(node_records@));
        lemma_latest_rows(node_ids(node_records@));
        let keys = choose|keys: Seq<usize>| table::walks(node_table@, keys, nodes@);
        assert forall|i: int| 0 <= i < nodes@.len() implies rows.contains_key(keys[i])
            && (#[trigger] nodes@[i]) == node_table@[keys[i]] && nodes@[i].id == keys[i] by {
            assert(keys.contains(keys[i]));
            assert(node_table@.contains_key(keys[i]));
            assert(rows.contains_key(keys[i]));
        }
        assert forall|id: usize| #[trigger] rows.contains_key(id) implies exists|i: int|
            0 <= i < nodes@.len() && (#[trigger] nodes@[i]).id == id by {
            assert(node_table@.contains_key(id));
            assert(keys.contains(id));
            let k = choose|k: int| 0 <= k < keys.len() && keys[k] == id;
            assert(nodes@[k].id == id);
        }
        assert forall|id: usize| index@.contains_key(id) <==> knows(node_records@, id) by {
            if knows(node_records@, id) {
                assert(rows.contains_key(id));
                let i = choose|i: int| 0 <= i < nodes@.len() && (#[trigger] nodes@[i]).id == id;
                assert(index@.contains_key(nodes@[i].id));
            }
            if index@.contains_key(id) {
                let i = index@[id] as int;
                assert(nodes@[i].id == id);
                assert(rows.contains_key(keys[i]));
            }
        }
        assert(nodes_loaded(node_records@, nodes@));
    }
    let relation_table = match read_relations(relation_records, &index) {
        Ok(table) => table,
        Err(error) => {
            return Err(error);
        },
    };
    let relations = table::into_values(relation_table);
    proof {
        let keys = choose|keys: Seq<usize>| table::walks(relation_table@, keys, relations@);
        let rows = latest_rows(relation_ids(relation_records@));
        lemma_latest_rows(relation_ids(relation_records@));
        assert forall|key: usize| keys.contains(key) <==> rows.contains_key(key) by {
            assert(keys.contains(key) <==> relation_table@.contains_key(key));
        }
        assert forall|k: int| 0 <= k < keys.len() implies joins(
            relation_records@[rows[keys[k]]],
            nodes@,
            #[trigger] relations@[k],
        ) by {
            assert(keys.contains(keys[k]));
            assert(relation_table@.contains_key(keys[k]));
            assert(rows.contains_key(keys[k]));
            assert(relations@[k] == relation_table@[keys[k]]);
            assert(resolves(relation_records@[rows[keys[k]]], index@, relations@[k]));
        }
        assert(relations_follow(relation_records@, nodes@, relations@, keys));
    }
    let graph = Graph::assemble(nodes, relations);
    proof {
        let keys = choose|keys: Seq<usize>|
            relations_follow(relation_records@, nodes@, relations@, keys);
        lemma_loaded_carries_over(
            node_records@,
            relation_records@,
            nodes@,
            graph.spec_nodes(),
            relations@,
            keys,
        );
    }
    Ok(graph)
}

/// What was loaded into `bare` holds of `linked` too, which has the same
/// identities and bodies.
proof fn lemma_loaded_carries_over<B, W>(
    node_records: Seq<NodeRecord<B>>,
    relation_records: Seq<RelationRecord<W>>,
    bare: Seq<Node<B>>,
    linked: Seq<Node<B>>,
    relations: Seq<Relation<W>>,
    keys: Seq<usize>,
)
    requires
        crate::graph::same_bodies(bare, linked),
        nodes_loaded(node_records, bare),
        relations_follow(relation_records, bare, relations, keys),
    ensures
        nodes_loaded(node_records, linked),
        relations_follow(relation_records, linked, relations, keys),
{
    let rows = latest_rows(node_ids(node_records));
    assert forall|id: usize| #[trigger] rows.contains_key(id) implies exists|i: int|
        0 <= i < linked.len() && (#[trigger] linked[i]).id == id by {
        let i = choose|i: int| 0 <= i < bare.len() && (#[trigger] bare[i]).id == id;
        assert(linked[i].id == id);
    }
    let relation_rows = latest_rows(relation_ids(relation_records));
    assert forall|k: int| 0 <= k < keys.len() implies joins(
        relation_records[relation_rows[keys[k]]],
        linked,
        #[trigger] relations[k],
    ) by {
        assert(joins(relation_records[relation_rows[keys[k]]], bare, relations[k]));
    }
}

} // verus!
