use braid_core::antimatter::{Patch, PrunableCrdt};
use braid_core::collections::StrMap;
use braid_core::json_crdt::{parse_range, JsonCrdt, JsonPatch, PatchContent};
use braid_core::sequence_crdt::{
    add_version, apply_bubbles, content, generate_braid, traverse, traverse_until, get, length, AncestorSet, SequenceElems, SequenceNode,
    Splice,
};

fn everything() -> AncestorSet {
    AncestorSet::All
}

fn listed(vs: &[&str]) -> AncestorSet {
    AncestorSet::Listed(vs.iter().map(|v| v.to_string()).collect())
}

#[test]
fn test_create_node() {
    let node = SequenceNode::text("alice1", "hello");
    assert_eq!(node.version, Some("alice1".to_string()));
    assert!(matches!(node.elems, SequenceElems::String(ref s) if s == "hello"));
    assert!(!node.end_cap);
    assert!(node.deleted_by.is_empty());
    assert!(node.nexts.is_empty());
    assert!(node.next.is_none());
}

#[test]
fn test_content() {
    let node = SequenceNode::text("alice1", "hello");
    let content = content(&node, &everything());
    assert_eq!(content, "hello");
}

#[test]
fn test_length() {
    let node = SequenceNode::text("alice1", "hello");
    let len = length(&node, &everything());
    assert_eq!(len, 5);
}

#[test]
fn test_get() {
    let node = SequenceNode::text("alice1", "hello");
    assert_eq!(get(&node, 0, &everything()), Some('h'));
    assert_eq!(get(&node, 4, &everything()), Some('o'));
    assert_eq!(get(&node, 5, &everything()), None);
}

#[test]
fn test_deleted_node() {
    let mut node = SequenceNode::text("alice1", "hello");
    node.deleted_by.insert("bob1".to_string());

    let len = length(&node, &listed(&["alice1", "bob1"]));
    assert_eq!(len, 0);

    let len_without_delete = length(&node, &listed(&["alice1"]));
    assert_eq!(len_without_delete, 5);
}

#[test]
fn test_sequence_node_creation() {
    let node = SequenceNode::text("alice1", "hello");
    assert_eq!(node.version, Some("alice1".to_string()));
    assert!(matches!(node.elems, SequenceElems::String(ref s) if s == "hello"));
}

#[test]
fn test_sequence_content() {
    let node = SequenceNode::text("alice1", "hello world");
    let content = content(&node, &everything());
    assert_eq!(content, "hello world");
}

#[test]
fn test_sequence_length() {
    let node = SequenceNode::text("alice1", "hello");
    assert_eq!(length(&node, &everything()), 5);
}

#[test]
fn test_sequence_get() {
    let node = SequenceNode::text("alice1", "hello");
    assert_eq!(get(&node, 0, &everything()), Some('h'));
    assert_eq!(get(&node, 4, &everything()), Some('o'));
    assert_eq!(get(&node, 5, &everything()), None);
}

#[test]
fn test_sequence_deletion_visibility() {
    let mut node = SequenceNode::text("alice1", "hello");
    node.deleted_by.insert("bob1".to_string());

    let len = length(&node, &listed(&["alice1", "bob1"]));
    assert_eq!(len, 0);

    let len = length(&node, &listed(&["alice1"]));
    assert_eq!(len, 5);
}

fn insert_splice(pos: usize, text: &str) -> Splice {
    Splice {
        pos,
        delete_count: 0,
        insert: SequenceElems::String(text.to_string()),
        sort_key: None,
        op_type: 'i',
    }
}

#[test]
fn inserted_text_reads_back_at_its_position() {
    let mut root = SequenceNode::text("alice1", "hello");
    add_version(&mut root, "alice2", vec![insert_splice(5, " world")], &everything());
    assert_eq!(content(&root, &everything()), "hello world");
    assert_eq!(content(&root, &listed(&["alice1"])), "hello");
    assert_eq!(length(&root, &everything()), 11);
}

#[test]
fn braid_of_an_insert_gives_the_insert_back() {
    let mut root = SequenceNode::text("alice1", "hello");
    add_version(&mut root, "alice2", vec![insert_splice(5, "!")], &everything());
    let splices = generate_braid(&root, "alice2", &listed(&["alice1"]));
    assert_eq!(splices.len(), 1);
    assert_eq!(splices[0].pos, 5);
    assert_eq!(splices[0].delete_count, 0);
    assert!(matches!(splices[0].insert, SequenceElems::String(ref s) if s == "!"));
}

#[test]
fn test_create_json_crdt() {
    let crdt = JsonCrdt::new("alice");
    assert_eq!(crdt.id, "alice");
    assert_eq!(crdt.next_seq, 0);
    assert!(crdt.t.is_empty());
}

#[test]
fn test_with_content() {
    let crdt = JsonCrdt::with_content("alice", "hello");
    assert_eq!(crdt.get_content(), "hello");
    assert_eq!(crdt.get_length(), 5);
}

#[test]
fn test_add_version() {
    let mut crdt = JsonCrdt::with_content("alice", "hello");
    let version = crdt.generate_version();
    let parents: StrMap<bool> = crdt.current_version.copy();
    let patch = JsonPatch::new("5", PatchContent::Text(" world".to_string()));
    crdt.add_version(&version, parents, vec![patch]);
    assert!(crdt.t.contains_key(&version));
}

#[test]
fn json_crdt_add_version_changes_the_text() {
    let mut crdt = JsonCrdt::with_content("alice", "hello");
    let version = crdt.generate_version();
    let parents: StrMap<bool> = crdt.current_version.copy();
    let patch = JsonPatch::new("5", PatchContent::Text(" world".to_string()));
    crdt.add_version(&version, parents, vec![patch]);
    assert_eq!(crdt.get_content(), "hello world");
    assert_eq!(crdt.get_frontier(), vec![version]);
}

#[test]
fn test_parse_range() {
    assert_eq!(parse_range("5"), (5, 0));
    assert_eq!(parse_range("5:10"), (5, 5));
    assert_eq!(parse_range("0:3"), (0, 3));
}

#[test]
fn parse_range_edge_cases() {
    assert_eq!(parse_range("x"), (0, 0));
    assert_eq!(parse_range("7:3"), (7, 0));
    assert_eq!(parse_range("a:4"), (0, 4));
}

#[test]
fn test_json_crdt_creation() {
    let crdt = JsonCrdt::new("alice");
    assert_eq!(crdt.id, "alice");
    assert_eq!(crdt.next_seq, 0);
}

#[test]
fn test_json_crdt_with_content() {
    let crdt = JsonCrdt::with_content("alice", "hello");
    assert_eq!(crdt.get_content(), "hello");
    assert_eq!(crdt.get_length(), 5);
}

#[test]
fn test_json_crdt_version_generation() {
    let mut crdt = JsonCrdt::new("alice");
    let v1 = crdt.generate_version();
    let v2 = crdt.generate_version();
    assert!(v1 != v2);
    assert!(v1.ends_with("@alice"));
    assert!(v2.ends_with("@alice"));
}

#[test]
fn test_json_crdt_frontier() {
    let crdt = JsonCrdt::with_content("alice", "hello");
    let frontier = crdt.get_frontier();
    assert_eq!(frontier.len(), 1);
    assert!(frontier[0].contains("@alice"));
}

#[test]
fn json_crdt_serves_as_an_antimatter_crdt() {
    let mut crdt = JsonCrdt::with_content("alice", "hello");
    let v = crdt.generate_version();
    let parents = crdt.current_version.copy();
    crdt.add_version(&v, parents, vec![JsonPatch::new("5", PatchContent::Text("!".to_string()))]);
    let updates = PrunableCrdt::generate_braid(&crdt, &StrMap::new());
    let direct = crdt.generate_braid(&StrMap::new());
    assert_eq!(updates.len(), direct.len());
    for (a, b) in updates.iter().zip(direct.iter()) {
        assert_eq!(a.0, b.0);
        assert_eq!(a.2.len(), b.2.len());
    }
    assert_eq!(PrunableCrdt::get_next_seq(&crdt), crdt.next_seq);
    PrunableCrdt::apply_patch(&mut crdt, Patch { range: "0".to_string(), content: PatchContent::Text(">".to_string()) });
    assert_eq!(content(&crdt.sequence, &AncestorSet::All), ">hello!");
    PrunableCrdt::prune(&mut crdt, &v);
    assert!(!crdt.t.contains_key(&v));
    assert!(!crdt.current_version.contains_key(&v));
}

#[test]
fn bubbling_keeps_text_of_same_version_branch() {
    let mut root = SequenceNode::text("v0", "hello");
    root.nexts.push(Box::new(SequenceNode::text("v1", " world")));
    let mut tb: StrMap<(String, String)> = StrMap::new();
    tb.insert("v1".to_string(), ("v0".to_string(), "v0".to_string()));
    apply_bubbles(&mut root, &tb);
    assert_eq!(content(&root, &everything()), "hello world");
    assert_eq!(root.nexts[0].version.as_deref(), Some("v0"));
}

#[test]
fn traverse_until_stops_at_first_refusal() {
    let mut root = SequenceNode::text("alice1", "hello");
    add_version(&mut root, "alice2", vec![insert_splice(5, " world")], &everything());
    let all = traverse(&root, &everything());
    assert!(all.len() >= 2);
    let first = traverse_until(&root, &everything(), |_s| false);
    assert_eq!(first.len(), 1);
    assert_eq!(first[0].offset, 0);
    let every = traverse_until(&root, &everything(), |_s| true);
    assert_eq!(every.len(), all.len());
    assert_eq!(every[1].offset, 5);
}

fn splice(pos: usize, delete_count: usize, text: &str) -> Splice {
    Splice {
        pos,
        delete_count,
        insert: SequenceElems::String(text.to_string()),
        sort_key: None,
        op_type: if delete_count > 0 { 'r' } else { 'i' },
    }
}

#[test]
fn deleting_inside_a_node_removes_the_range() {
    let mut root = SequenceNode::text("v0", "hello");
    add_version(&mut root, "v1", vec![splice(1, 3, "")], &listed(&["v0"]));
    assert_eq!(content(&root, &listed(&["v0", "v1"])), "ho");
    assert_eq!(content(&root, &listed(&["v0"])), "hello");
}

#[test]
fn every_splice_of_a_version_is_applied() {
    let mut root = SequenceNode::text("v0", "hello world");
    add_version(&mut root, "v1", vec![splice(0, 1, "H"), splice(6, 5, "there")], &listed(&["v0"]));
    assert_eq!(content(&root, &listed(&["v0", "v1"])), "Hello there");
    assert_eq!(content(&root, &listed(&["v0"])), "hello world");
}

#[test]
fn splices_reach_across_branches() {
    let mut root = SequenceNode::text("v0", "hello");
    add_version(&mut root, "v1", vec![splice(5, 0, " world")], &listed(&["v0"]));
    assert_eq!(content(&root, &listed(&["v0", "v1"])), "hello world");
    add_version(&mut root, "v2", vec![splice(3, 5, "p"), splice(11, 0, "!")], &listed(&["v0", "v1"]));
    assert_eq!(content(&root, &listed(&["v0", "v1", "v2"])), "helprld!");
    assert_eq!(content(&root, &listed(&["v0", "v1"])), "hello world");
}

#[test]
fn splices_that_do_not_fit_change_nothing() {
    let mut root = SequenceNode::text("v0", "abc");
    add_version(&mut root, "v1", vec![splice(2, 5, "x")], &listed(&["v0"]));
    assert_eq!(content(&root, &listed(&["v0", "v1"])), "abc");
    add_version(&mut root, "v2", vec![splice(2, 0, "x"), splice(1, 0, "y")], &listed(&["v0"]));
    assert_eq!(content(&root, &listed(&["v0", "v2"])), "abc");
}

#[test]
fn braid_of_an_insert_into_hello_is_that_insert() {
    let mut root = SequenceNode::text("v0", "hello");
    add_version(&mut root, "v1", vec![insert_splice(2, "XY")], &everything());
    let splices = generate_braid(&root, "v1", &everything());
    assert_eq!(splices.len(), 1);
    assert_eq!(splices[0].pos, 2);
    assert_eq!(splices[0].delete_count, 0);
    assert!(matches!(splices[0].insert, SequenceElems::String(ref s) if s == "XY"));
    assert_eq!(splices[0].sort_key, None);
    assert_eq!(splices[0].op_type, 'i');
}

#[test]
fn braid_of_an_insert_rebuilds_it_on_a_copy() {
    let mut r1 = SequenceNode::text("v0", "hello");
    let mut r2 = r1.duplicate();
    add_version(&mut r1, "v1", vec![insert_splice(2, "XY")], &listed(&["v0"]));
    let braid = generate_braid(&r1, "v1", &listed(&["v0"]));
    add_version(&mut r2, "v1", braid, &listed(&["v0"]));
    assert_eq!(content(&r1, &listed(&["v0", "v1"])), "heXYllo");
    assert_eq!(content(&r2, &listed(&["v0", "v1"])), "heXYllo");
    assert_eq!(content(&r2, &listed(&["v0"])), "hello");
}

#[test]
fn braid_of_a_delete_rebuilds_it_on_a_copy() {
    let mut r1 = SequenceNode::text("v0", "hello");
    let mut r2 = r1.duplicate();
    let cut = Splice {
        pos: 1,
        delete_count: 2,
        insert: SequenceElems::String(String::new()),
        sort_key: None,
        op_type: 'd',
    };
    add_version(&mut r1, "v1", vec![cut], &listed(&["v0"]));
    let braid = generate_braid(&r1, "v1", &listed(&["v0"]));
    assert_eq!(braid.len(), 2);
    assert_eq!((braid[0].pos, braid[0].delete_count), (1, 1));
    assert_eq!((braid[1].pos, braid[1].delete_count), (2, 1));
    add_version(&mut r2, "v1", braid, &listed(&["v0"]));
    assert_eq!(content(&r1, &listed(&["v0", "v1"])), "hlo");
    assert_eq!(content(&r2, &listed(&["v0", "v1"])), "hlo");
}

#[test]
fn json_crdt_braid_of_a_version_is_its_patch() {
    let mut crdt = JsonCrdt::with_content("alice", "hello");
    let version = crdt.generate_version();
    assert_eq!(version, "1@alice");
    let parents: StrMap<bool> = crdt.current_version.copy();
    let patch = JsonPatch::new("5", PatchContent::Text(" world".to_string()));
    crdt.add_version(&version, parents, vec![patch]);
    assert_eq!(crdt.get_content(), "hello world");
    let splices = crdt.generate_version_splices("1@alice");
    assert_eq!(splices.len(), 1);
    assert_eq!(splices[0].pos, 5);
    assert_eq!(splices[0].delete_count, 0);
    assert!(matches!(splices[0].insert, SequenceElems::String(ref s) if s == " world"));
    assert_eq!(splices[0].sort_key, None);
    assert_eq!(splices[0].op_type, 'i');
}

#[test]
fn json_crdt_length_is_content_length() {
    let mut crdt = JsonCrdt::with_content("alice", "hello");
    let version = crdt.generate_version();
    let parents: StrMap<bool> = crdt.current_version.copy();
    let patch = JsonPatch::new("1:3", PatchContent::Text("ipp".to_string()));
    crdt.add_version(&version, parents, vec![patch]);
    assert_eq!(crdt.get_content(), "hipplo");
    assert_eq!(crdt.get_length(), crdt.get_content().chars().count());
}
