use nohash_hasher::IntMap;
use spring_layout::graph::Spring;
use spring_layout::load::{
    index_nodes, read_all, read_nodes, read_relations, LoadError, NodeRecord, RelationRecord,
};
use spring_layout::model::Node;

fn node(id: usize, weight: f32) -> NodeRecord<f32> {
    NodeRecord { id, body: weight }
}

fn relation(id: usize, from: usize, to: usize, weight_squared: f32) -> RelationRecord<f32> {
    RelationRecord { id, from, to, weight_squared }
}

fn position_of(graph: &spring_layout::graph::Graph<f32, f32>, id: usize) -> usize {
    graph.nodes().iter().position(|n| n.id == id).unwrap()
}

#[test]
fn read_nodes_files_each_identity() {
    let table = read_nodes(vec![node(3, 1.0), node(5, 2.0), node(8, 3.0)]);
    assert_eq!(table.len(), 3);
    assert_eq!(table[&3].id, 3);
    assert_eq!(table[&5].body, 2.0);
    assert_eq!(table[&8].body, 3.0);
    assert!(table[&3].from.is_empty());
    assert!(table[&3].to.is_empty());
}

#[test]
fn read_nodes_keeps_the_last_record_of_an_identity() {
    let table = read_nodes(vec![node(3, 1.0), node(5, 2.0), node(3, 9.0)]);
    assert_eq!(table.len(), 2);
    assert_eq!(table[&3].body, 9.0);
    assert_eq!(table[&5].body, 2.0);
}

#[test]
fn read_nodes_of_nothing() {
    let records: Vec<NodeRecord<f32>> = Vec::new();
    assert!(read_nodes(records).is_empty());
}

#[test]
fn index_nodes_files_each_position() {
    let nodes = vec![Node::new(40, ()), Node::new(7, ()), Node::new(19, ())];
    let index = index_nodes(&nodes);
    assert_eq!(index.len(), 3);
    assert_eq!(index[&40], 0);
    assert_eq!(index[&7], 1);
    assert_eq!(index[&19], 2);
}

#[test]
fn index_nodes_of_one_identity_files_one_of_them() {
    let nodes = vec![Node::new(5, ()), Node::new(5, ()), Node::new(6, ())];
    let index = index_nodes(&nodes);
    assert_eq!(index.len(), 2);
    assert_eq!(nodes[index[&5]].id, 5);
    assert_eq!(index[&6], 2);
}

#[test]
fn read_relations_resolves_endpoints() {
    let mut index: IntMap<usize, usize> = IntMap::default();
    index.insert(100, 0);
    index.insert(200, 1);
    index.insert(300, 2);
    let table =
        read_relations(vec![relation(1, 100, 300, 4.0), relation(2, 300, 200, 9.0)], &index)
            .unwrap();
    assert_eq!(table.len(), 2);
    assert_eq!(table[&1].from, 0);
    assert_eq!(table[&1].to, 2);
    assert_eq!(table[&1].weight_squared, 4.0);
    assert_eq!(table[&2].from, 2);
    assert_eq!(table[&2].to, 1);
    assert_eq!(table[&2].weight_squared, 9.0);
}

#[test]
fn read_relations_keeps_the_last_record_of_an_identity() {
    let mut index: IntMap<usize, usize> = IntMap::default();
    index.insert(100, 0);
    index.insert(200, 1);
    let table =
        read_relations(vec![relation(1, 100, 200, 4.0), relation(1, 200, 100, 16.0)], &index)
            .unwrap();
    assert_eq!(table.len(), 1);
    assert_eq!(table[&1].from, 1);
    assert_eq!(table[&1].to, 0);
    assert_eq!(table[&1].weight_squared, 16.0);
}

#[test]
fn read_relations_reports_a_missing_destination() {
    let mut index: IntMap<usize, usize> = IntMap::default();
    index.insert(100, 0);
    let result = read_relations(vec![relation(1, 100, 100, 1.0), relation(2, 100, 7, 1.0)], &index);
    assert_eq!(result.err(), Some(LoadError::MissingNode { record: 1, node: 7 }));
}

#[test]
fn read_relations_reports_a_missing_source() {
    let mut index: IntMap<usize, usize> = IntMap::default();
    index.insert(100, 0);
    let result = read_relations(vec![relation(1, 9, 100, 1.0)], &index);
    assert_eq!(result.err(), Some(LoadError::MissingNode { record: 0, node: 9 }));
}

#[test]
fn read_relations_looks_the_destination_up_first() {
    let index: IntMap<usize, usize> = IntMap::default();
    let result = read_relations(vec![relation(1, 4, 5, 1.0)], &index);
    assert_eq!(result.err(), Some(LoadError::MissingNode { record: 0, node: 5 }));
}

#[test]
fn read_all_builds_a_path() {
    let graph = read_all(
        vec![node(1, 1.0), node(2, 2.0), node(3, 3.0)],
        vec![relation(10, 1, 2, 4.0), relation(11, 2, 3, 9.0)],
    )
    .unwrap();
    assert_eq!(graph.nodes().len(), 3);
    assert_eq!(graph.relations().len(), 2);
    let (a, b, c) = (position_of(&graph, 1), position_of(&graph, 2), position_of(&graph, 3));
    assert_eq!(graph.nodes()[a].body, 1.0);
    assert_eq!(graph.nodes()[b].body, 2.0);
    assert_eq!(graph.nodes()[c].body, 3.0);
    let first = graph.relations().iter().position(|r| r.weight_squared == 4.0).unwrap();
    let second = graph.relations().iter().position(|r| r.weight_squared == 9.0).unwrap();
    assert_eq!(graph.relations()[first].from, a);
    assert_eq!(graph.relations()[first].to, b);
    assert_eq!(graph.relations()[second].from, b);
    assert_eq!(graph.relations()[second].to, c);
    assert_eq!(graph.nodes()[a].from, vec![first]);
    assert!(graph.nodes()[a].to.is_empty());
    assert_eq!(graph.nodes()[b].from, vec![second]);
    assert_eq!(graph.nodes()[b].to, vec![first]);
    assert!(graph.nodes()[c].from.is_empty());
    assert_eq!(graph.nodes()[c].to, vec![second]);
    assert_eq!(
        graph.springs(b),
        vec![
            Spring { relation: second, reversed: false },
            Spring { relation: first, reversed: true }
        ]
    );
}

#[test]
fn read_all_gives_each_identity_one_node() {
    let graph = read_all(
        vec![node(1, 1.0), node(2, 2.0), node(1, 5.0), node(2, 6.0), node(1, 7.0)],
        Vec::<RelationRecord<f32>>::new(),
    )
    .unwrap();
    assert_eq!(graph.nodes().len(), 2);
    assert_eq!(graph.nodes()[position_of(&graph, 1)].body, 7.0);
    assert_eq!(graph.nodes()[position_of(&graph, 2)].body, 6.0);
    assert_eq!(graph.repellers(0), vec![1]);
    assert_eq!(graph.repellers(1), vec![0]);
}

#[test]
fn read_all_gives_each_relation_identity_one_relation() {
    let graph = read_all(
        vec![node(1, 1.0), node(2, 2.0)],
        vec![relation(10, 1, 2, 4.0), relation(10, 2, 1, 25.0)],
    )
    .unwrap();
    assert_eq!(graph.relations().len(), 1);
    let (a, b) = (position_of(&graph, 1), position_of(&graph, 2));
    assert_eq!(graph.relations()[0].from, b);
    assert_eq!(graph.relations()[0].to, a);
    assert_eq!(graph.relations()[0].weight_squared, 25.0);
    assert_eq!(graph.nodes()[b].from, vec![0]);
    assert_eq!(graph.nodes()[a].to, vec![0]);
    assert!(graph.nodes()[a].from.is_empty());
    assert!(graph.nodes()[b].to.is_empty());
}

#[test]
fn read_all_reports_a_missing_node() {
    let result = read_all(
        vec![node(1, 1.0), node(2, 2.0)],
        vec![relation(10, 1, 2, 4.0), relation(11, 2, 3, 9.0), relation(12, 8, 9, 1.0)],
    );
    assert_eq!(result.err(), Some(LoadError::MissingNode { record: 1, node: 3 }));
}

#[test]
fn read_all_checks_records_that_a_later_one_replaces() {
    let result = read_all(
        vec![node(1, 1.0), node(2, 2.0)],
        vec![relation(10, 7, 2, 4.0), relation(10, 1, 2, 9.0)],
    );
    assert_eq!(result.err(), Some(LoadError::MissingNode { record: 0, node: 7 }));
}

#[test]
fn read_all_without_nodes_refuses_any_relation() {
    let result = read_all(Vec::<NodeRecord<f32>>::new(), vec![relation(1, 1, 1, 1.0)]);
    assert_eq!(result.err(), Some(LoadError::MissingNode { record: 0, node: 1 }));
}

#[test]
fn read_all_of_nothing() {
    let graph =
        read_all(Vec::<NodeRecord<f32>>::new(), Vec::<RelationRecord<f32>>::new()).unwrap();
    assert!(graph.nodes().is_empty());
    assert!(graph.relations().is_empty());
}

#[test]
fn read_all_keeps_every_node_of_a_larger_graph() {
    let nodes: Vec<NodeRecord<f32>> = (0..200usize).map(|id| node(id * 7, id as f32)).collect();
    let relations: Vec<RelationRecord<f32>> =
        (0..199usize).map(|k| relation(k, k * 7, (k + 1) * 7, 1.0)).collect();
    let graph = read_all(nodes, relations).unwrap();
    assert_eq!(graph.nodes().len(), 200);
    assert_eq!(graph.relations().len(), 199);
    let mut ids: Vec<usize> = graph.nodes().iter().map(|n| n.id).collect();
    ids.sort();
    assert_eq!(ids, (0..200usize).map(|id| id * 7).collect::<Vec<usize>>());
    for (i, n) in graph.nodes().iter().enumerate() {
        assert_eq!(n.body, (n.id / 7) as f32);
        for &r in &n.from {
            assert_eq!(graph.relations()[r].from, i);
        }
        for &r in &n.to {
            assert_eq!(graph.relations()[r].to, i);
        }
    }
    for (r, relation) in graph.relations().iter().enumerate() {
        assert!(graph.nodes()[relation.from].from.contains(&r));
        assert!(graph.nodes()[relation.to].to.contains(&r));
        assert_eq!(graph.nodes()[relation.from].id + 7, graph.nodes()[relation.to].id);
    }
}
