use edfs::domain::{NodeId, NodeMeta};
use edfs::tree::{NodeOperation, NodeTree, PeerKey};

fn peer(tag: u8) -> PeerKey {
    PeerKey { bytes: vec![tag; 4] }
}

fn dir(name: &str) -> NodeMeta {
    NodeMeta::Directory { name: name.to_string() }
}

fn name_of(meta: Option<&NodeMeta>) -> Option<String> {
    meta.map(|m| match m {
        NodeMeta::Directory { name } => name.clone(),
        NodeMeta::RegularFile { name, .. } => name.clone(),
        NodeMeta::Symlink { name, .. } => name.clone(),
    })
}

fn ops_of_two_writers() -> (Vec<NodeOperation>, Vec<NodeOperation>) {
    let mut a = NodeTree::new(peer(1));
    let mut b = NodeTree::new(peer(2));
    let x = NodeId::from_u128(10);
    let y = NodeId::from_u128(11);
    let op_a1 = a.create_node(NodeId::root(), x, dir("x"));
    let op_a2 = a.move_node(x, NodeId::root(), dir("x-renamed")).ok().unwrap();
    let op_b1 = b.create_node(NodeId::root(), y, dir("y"));
    let op_b2 = b.move_node(y, NodeId::root(), dir("y-renamed")).ok().unwrap();
    (vec![op_a1, op_a2], vec![op_b1, op_b2])
}

fn all_ops(first: &[NodeOperation], second: &[NodeOperation]) -> Vec<NodeOperation> {
    let mut v = first.to_vec();
    v.extend_from_slice(second);
    v
}

#[test]
fn trees_that_apply_the_same_operations_in_any_order_agree() {
    let (from_a, from_b) = ops_of_two_writers();
    let mut t1 = NodeTree::new(peer(3));
    let mut t2 = NodeTree::new(peer(4));
    t1.apply_operations(all_ops(&from_a, &from_b));
    let mut reversed = all_ops(&from_b, &from_a);
    reversed.reverse();
    t2.apply_operations(reversed);
    for id in [10u128, 11u128] {
        let n = NodeId::from_u128(id);
        assert_eq!(name_of(t1.metadata(n)), name_of(t2.metadata(n)));
        assert_eq!(t1.parent_id(n).map(|p| p.as_u128()), t2.parent_id(n).map(|p| p.as_u128()));
    }
    assert_eq!(name_of(t1.metadata(NodeId::from_u128(10))), Some("x-renamed".to_string()));
    assert_eq!(name_of(t1.metadata(NodeId::from_u128(11))), Some("y-renamed".to_string()));
    let ids1: Vec<(Vec<u8>, u64)> = t1.operation_ids().into_iter().map(|(p, c)| (p.bytes, c)).collect();
    let ids2: Vec<(Vec<u8>, u64)> = t2.operation_ids().into_iter().map(|(p, c)| (p.bytes, c)).collect();
    assert_eq!(ids1, ids2);
}

#[test]
fn applying_known_operations_again_changes_nothing() {
    let (from_a, from_b) = ops_of_two_writers();
    let mut t = NodeTree::new(peer(3));
    t.apply_operations(all_ops(&from_a, &from_b));
    let before: Vec<(Vec<u8>, u64)> = t.operation_ids().into_iter().map(|(p, c)| (p.bytes, c)).collect();
    t.apply_operations(all_ops(&from_b, &from_a));
    let after: Vec<(Vec<u8>, u64)> = t.operation_ids().into_iter().map(|(p, c)| (p.bytes, c)).collect();
    assert_eq!(before, after);
    assert_eq!(name_of(t.metadata(NodeId::from_u128(10))), Some("x-renamed".to_string()));
}

#[test]
fn log_runs_newest_first() {
    let (from_a, from_b) = ops_of_two_writers();
    let mut t = NodeTree::new(peer(3));
    t.apply_operations(all_ops(&from_b, &from_a));
    let ids: Vec<(u64, Vec<u8>)> = t.operation_ids().into_iter().map(|(p, c)| (c, p.bytes)).collect();
    for w in ids.windows(2) {
        assert!(w[0] > w[1]);
    }
}
