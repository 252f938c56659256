use braid_core::antimatter_merge::AntimatterMergeType;
use braid_core::diamond::DiamondCRDT;
use braid_core::diamond_merge::DiamondMergeType;
use braid_core::json_crdt::PatchContent;
use braid_core::merge::{MergePatch, MergeResult};
use braid_core::resource::{ResourceState, TextDelete, TextInsert};
use braid_core::simpleton::SimpletonMergeType;

fn text(s: &str) -> PatchContent {
    PatchContent::Text(s.to_string())
}

fn seq_of(version: &Option<String>) -> i64 {
    version.as_ref().unwrap().split_once('-').unwrap().1.parse().unwrap()
}

#[test]
fn test_basic_insert() {
    let mut crdt = DiamondCRDT::new("alice");
    crdt.add_insert(0, "hello");
    assert_eq!(crdt.content(), "hello");
}

#[test]
fn test_multiple_inserts() {
    let mut crdt = DiamondCRDT::new("alice");
    crdt.add_insert(0, "hello");
    crdt.add_insert(5, " world");
    assert_eq!(crdt.content(), "hello world");
}

#[test]
fn test_delete() {
    let mut crdt = DiamondCRDT::new("alice");
    crdt.add_insert(0, "hello world");
    crdt.add_delete(5..6);
    assert_eq!(crdt.content(), "helloworld");
}

#[test]
fn test_concurrent_edits() {
    let mut crdt = DiamondCRDT::new("alice");
    crdt.add_insert(0, "hello");
    crdt.add_insert_remote("bob", 5, " world");
    assert_eq!(crdt.content(), "hello world");
}

#[test]
fn test_agent_id() {
    let crdt = DiamondCRDT::new("alice");
    assert_eq!(crdt.agent_id(), "alice");
}

#[test]
fn test_is_empty() {
    let mut crdt = DiamondCRDT::new("alice");
    assert!(crdt.is_empty());
    crdt.add_insert(0, "text");
    assert!(!crdt.is_empty());
}

#[test]
fn test_get_version() {
    let mut crdt = DiamondCRDT::new("alice");
    let v1 = crdt.get_version();
    assert!(v1.contains("alice"));
    crdt.add_insert(0, "text");
    let v2 = crdt.get_version();
    assert_ne!(v1, v2);
}

#[test]
fn diamond_versions_count_operations() {
    let mut crdt = DiamondCRDT::new("alice");
    assert_eq!(crdt.get_version(), "diamond-alice-0");
    crdt.add_insert(0, "text");
    assert_eq!(crdt.get_version(), "diamond-alice-4");
    crdt.add_delete(0..2);
    assert_eq!(crdt.get_version(), "diamond-alice-6");
    assert_eq!(crdt.operation_count(), 6);
    assert_eq!(crdt.content(), "xt");
}

#[test]
fn test_merge_quality() {
    let crdt = DiamondCRDT::new("alice");
    assert_eq!(crdt.merge_quality(), 100);
}

#[test]
fn version_mappings_resolve() {
    let mut crdt = DiamondCRDT::new("alice");
    crdt.register_version_mapping("v1".to_string(), vec![0]);
    assert_eq!(crdt.resolve_version("v1"), Some(&vec![0]));
    assert_eq!(crdt.resolve_version("v2"), None);
}

#[test]
fn remote_versioned_edits_apply_at_their_parents() {
    let mut crdt = DiamondCRDT::new("alice");
    crdt.add_insert(0, "ab");
    assert_eq!(crdt.get_local_frontier(), vec![1]);
    crdt.register_version_mapping("v1".to_string(), vec![0]);
    assert_eq!(crdt.text_at_parents(&["v1"]), Some("a".to_string()));
    assert_eq!(crdt.text_at_parents(&["unmapped"]), Some(String::new()));
    crdt.register_version_mapping("bad".to_string(), vec![99]);
    assert_eq!(crdt.text_at_parents(&["bad"]), None);
    assert_eq!(crdt.try_insert_remote_versioned("bob", &["bad"], 0, "X", None), None);
    assert_eq!(crdt.try_insert_remote_versioned("bob", &["v1"], 5, "X", None), None);
    let t = crdt.try_insert_remote_versioned("bob", &["v1"], 1, "X", Some("v2"));
    assert_eq!(t, Some(2));
    assert_eq!(crdt.text_at_parents(&["v2"]), Some("aX".to_string()));
    assert_eq!(crdt.content().chars().count(), 3);
    let d = crdt.try_delete_remote_versioned("bob", &["v2"], 0..1, Some("v3"));
    assert_eq!(d, Some(3));
    assert_eq!(crdt.text_at_parents(&["v3"]), Some("X".to_string()));
    assert_eq!(crdt.try_delete_remote_versioned("bob", &["v3"], 0..2, None), None);
}

#[test]
fn test_simpleton_diffing() {
    let mut simpleton = SimpletonMergeType::new("peer1");

    let res1 = simpleton.local_edit(MergePatch::new("everything", text("abc")));
    assert_eq!(res1.rebased_patches[0].range, "[0:0]");
    assert!(matches!(res1.rebased_patches[0].content, PatchContent::Text(ref s) if s == "abc"));
    let v1 = res1.version.clone().unwrap();
    assert!(v1.starts_with("peer1-"));
    let seq1 = seq_of(&res1.version);
    assert_eq!(simpleton.get_content(), "abc");

    let res2 = simpleton.local_edit(MergePatch::new("everything", text("axc")));
    assert_eq!(res2.rebased_patches[0].range, "[1:2]");
    assert!(matches!(res2.rebased_patches[0].content, PatchContent::Text(ref s) if s == "x"));
    let seq2 = seq_of(&res2.version);
    assert_eq!(seq2, seq1 + 2);
    assert_eq!(simpleton.get_content(), "axc");

    let res3 = simpleton.local_edit(MergePatch::new("everything", text("axcd")));
    assert_eq!(res3.rebased_patches[0].range, "[3:3]");
    assert!(matches!(res3.rebased_patches[0].content, PatchContent::Text(ref s) if s == "d"));
    let seq3 = seq_of(&res3.version);
    assert_eq!(seq3, seq2 + 1);
}

#[test]
fn test_simpleton_edge_cases() {
    let mut simpleton = SimpletonMergeType::new("peer2");

    let res1 = simpleton.local_edit(MergePatch::new("everything", text("hello")));
    assert_eq!(res1.rebased_patches[0].range, "[0:0]");
    assert!(matches!(res1.rebased_patches[0].content, PatchContent::Text(ref s) if s == "hello"));
    assert_eq!(simpleton.get_content(), "hello");

    let res2 = simpleton.local_edit(MergePatch::new("everything", text("")));
    assert_eq!(res2.rebased_patches[0].range, "[0:5]");
    assert!(matches!(res2.rebased_patches[0].content, PatchContent::Text(ref s) if s.is_empty()));
    assert_eq!(simpleton.get_content(), "");

    simpleton.initialize("abc");
    let res3 = simpleton.local_edit(MergePatch::new("everything", text("abc\n")));
    assert_eq!(res3.rebased_patches[0].range, "[3:3]");
    assert!(matches!(res3.rebased_patches[0].content, PatchContent::Text(ref s) if s == "\n"));
    assert_eq!(simpleton.get_content(), "abc\n");

    let res4 = simpleton.local_edit(MergePatch::new("everything", text("abc\r\n")));
    assert_eq!(res4.rebased_patches[0].range, "[3:3]");
    assert!(matches!(res4.rebased_patches[0].content, PatchContent::Text(ref s) if s == "\r"));
    assert_eq!(simpleton.get_content(), "abc\r\n");
}

#[test]
fn simpleton_versions_are_peer_and_counter() {
    let mut simpleton = SimpletonMergeType::new("p");
    let r = simpleton.local_edit(MergePatch::new("everything", text("héllo")));
    assert_eq!(r.version.as_deref(), Some("p-5"));
    assert_eq!(simpleton.get_version(), vec!["p-5".to_string()]);
    let same = simpleton.local_edit(MergePatch::new("everything", text("héllo")));
    assert!(same.success);
    assert!(same.rebased_patches.is_empty());
    assert_eq!(same.version.as_deref(), Some("p-5"));
}

#[test]
fn simpleton_refuses_custom_local_ranges() {
    let mut simpleton = SimpletonMergeType::new("p");
    let r: MergeResult = simpleton.local_edit(MergePatch::new("[0:1]", text("x")));
    assert!(!r.success);
    assert!(r.error.is_some());
    assert_eq!(simpleton.get_content(), "");
}

#[test]
fn simpleton_applies_remote_ranges() {
    let mut simpleton = SimpletonMergeType::new("p");
    simpleton.initialize("hello");
    let r = simpleton.apply_patch(MergePatch::with_version("[1:3]", text("EY"), "q-9".to_string(), vec![]));
    assert!(r.success);
    assert_eq!(simpleton.get_content(), "hEYlo");
    assert_eq!(simpleton.get_version(), vec!["q-9".to_string()]);
    let bad = simpleton.apply_patch(MergePatch::new("[4:99]", text("z")));
    assert!(!bad.success);
    assert_eq!(simpleton.get_content(), "hEYlo");
    assert_eq!(simpleton.name(), "simpleton");
    assert!(!simpleton.supports_pruning());
}

#[test]
fn antimatter_merge_test_antimatter_creation() {
    let merge = AntimatterMergeType::new_native("alice");
    assert_eq!(merge.name(), "antimatter");
}

#[test]
fn test_antimatter_initialize() {
    let mut merge = AntimatterMergeType::new_native("alice");
    let result = merge.initialize("hello");
    assert!(result.success);
    assert_eq!(merge.get_content(), "hello");
}

#[test]
fn test_antimatter_local_edit() {
    let mut merge = AntimatterMergeType::new_native("alice");
    merge.initialize("");
    let result = merge.local_edit(MergePatch::new("0", text("hello")));
    assert!(result.success);
    assert!(result.version.is_some());
    assert!(!merge.get_version().is_empty());
}

#[test]
fn test_antimatter_supports_pruning() {
    let merge = AntimatterMergeType::new_native("alice");
    assert!(merge.supports_pruning());
}

#[test]
fn antimatter_merge_remote_patch_needs_a_version() {
    let mut merge = AntimatterMergeType::new_native("alice");
    let r = merge.apply_patch(MergePatch::new("0", text("x")));
    assert!(!r.success);
    let ok = merge.apply_patch(MergePatch::with_version("0", text("x"), "1@bob".to_string(), vec![]));
    assert!(ok.success);
    assert_eq!(ok.version.as_deref(), Some("1@bob"));
    assert_eq!(ok.rebased_patches.len(), 1);
    assert_eq!(merge.get_version(), vec!["1@bob".to_string()]);
    let again = merge.apply_patch(MergePatch::with_version("0", text("x"), "1@bob".to_string(), vec![]));
    assert!(again.rebased_patches.is_empty());
}

#[test]
fn diamond_merge_initialize_and_edit() {
    let mut merge = DiamondMergeType::new("alice");
    assert_eq!(merge.name(), "diamond");
    let r = merge.initialize("hello");
    assert!(r.success);
    assert_eq!(merge.get_content(), "hello");
    assert_eq!(r.version.as_deref(), Some("diamond-alice-5"));
    let e = merge.local_edit(MergePatch::new("[5:5]", text("!")));
    assert!(e.success);
    assert_eq!(merge.get_content(), "hello!");
    let whole = merge.local_edit(MergePatch::new("", text("bye")));
    assert!(whole.success);
    assert_eq!(merge.get_content(), "bye");
}

#[test]
fn diamond_merge_refuses_empty_initialization() {
    let mut merge = DiamondMergeType::new("alice");
    let r = merge.initialize("");
    assert!(!r.success);
    assert_eq!(merge.get_content(), "");
}

#[test]
fn test_export_operations() {
    let mut crdt = DiamondCRDT::new("alice");
    crdt.add_insert(0, "hello");
    let export = crdt.export_operations();
    assert_eq!(export.agent_id, "alice");
    assert_eq!(export.operations_count, 5);
    assert_eq!(export.content, "hello");
    assert_eq!(export.version, "oplog-alice-5");
}

#[test]
fn test_checkpoint() {
    let mut crdt = DiamondCRDT::new("alice");
    crdt.add_insert(0, "hello");
    let cp = crdt.checkpoint();
    assert_eq!(cp.content, "hello");
    assert_eq!(cp.agent_id, "alice");
    assert_eq!(cp.version, "diamond-alice-5");
    assert_eq!(cp.oplog_len, 5);
}

#[test]
fn resource_updates_replace_the_text_once_per_version() {
    let mut r = ResourceState::new("alice", None, 7);
    assert_eq!(r.merge_type, "simpleton");
    let e = r.apply_update("hello", Some("v1"), None, 10).unwrap();
    assert_eq!(e.content, "hello");
    assert_eq!(r.last_sync, 10);
    assert!(r.has_version("v1"));
    let again = r.apply_update("other", Some("v1"), None, 20).unwrap();
    assert_eq!(again.content, "hello");
    assert_eq!(r.last_sync, 10);
    let e2 = r.apply_update("bye", None, Some("simpleton"), 30).unwrap();
    assert_eq!(e2.content, "bye");
    assert_eq!(e2.operations_count, 5 + 5 + 3);
    let cleared = r.apply_update("", None, None, 40).unwrap();
    assert_eq!(cleared.content, "");
}

#[test]
fn resource_refuses_another_merge_type() {
    let mut r = ResourceState::new("alice", Some("diamond"), 0);
    let refused = r.apply_remote_insert(0, "x", Some("v1"), Some("simpleton"), 5);
    assert_eq!(refused.unwrap_err(), "Merge-type mismatch: diamond vs simpleton");
    assert!(!r.has_version("v1"));
    let ok = r.apply_remote_insert(0, "xy", Some("v1"), Some("diamond"), 5).unwrap();
    assert_eq!(ok.content, "xy");
    let del = r.apply_remote_delete(0, 1, Some("v2"), Some("diamond"), 6).unwrap();
    assert_eq!(del.content, "y");
}

#[test]
fn resource_versioned_edits_apply_at_their_parents() {
    let mut r = ResourceState::new("alice", Some("diamond"), 0);
    r.apply_remote_insert_versioned("bob", &[], 0, "ab", Some("b1"), 1).unwrap();
    assert_eq!(r.crdt.content(), "ab");
    let e = r.apply_remote_delete_versioned("bob", &["b1"], 0..1, Some("b2"), 2).unwrap();
    assert_eq!(e.content, "b");
    let ignored = r.apply_remote_insert_versioned("bob", &["b2"], 9, "zz", Some("b3"), 3).unwrap();
    assert_eq!(ignored.content, "b");
    assert!(r.has_version("b3"));
}

fn ins(pos: usize, text: &str) -> TextInsert {
    TextInsert { pos, text: text.to_string() }
}

#[test]
fn structured_updates_apply_inserts_then_deletes() {
    let mut r = ResourceState::new("alice", Some("diamond"), 0);
    r.apply_text_operations("bob", &vec![ins(0, "hello"), ins(5, "!"), ins(99, "x")], &vec![TextDelete { start: 0, end: 1 }], None, None, 1);
    assert_eq!(r.crdt.content(), "ello!");
}

#[test]
fn structured_updates_with_a_version_apply_its_first_operation_only() {
    let mut r = ResourceState::new("alice", Some("diamond"), 0);
    r.apply_text_operations("bob", &vec![ins(0, "hello"), ins(5, "!")], &vec![], Some("v1"), None, 1);
    assert_eq!(r.crdt.content(), "hello");
    assert!(r.has_version("v1"));
}

#[test]
fn structured_updates_respect_the_merge_type() {
    let mut r = ResourceState::new("alice", None, 0);
    r.apply_text_operations("bob", &vec![ins(0, "hello")], &vec![], None, None, 1);
    assert_eq!(r.crdt.content(), "");
}

#[test]
fn merged_text_names_its_version() {
    let mut r = ResourceState::new("alice", None, 0);
    let e = r.merge_text("abc", Some("m1"), 3).unwrap();
    assert_eq!(e.content, "abc");
    assert_eq!(e.version, "oplog-alice-3");
    assert_eq!(r.crdt.resolve_version("oplog-alice-3"), Some(&r.crdt.get_local_frontier()));
}
