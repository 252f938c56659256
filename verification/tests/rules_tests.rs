use braid_core::diff::{chunks_to_patches, ChunkKind};
use braid_core::resource::{is_text_merge_type, looks_like_json_object, ResourceState};
use braid_core::sync_rules::{
    child_name, is_stale, parse_console_command, snapshot_merge_type, split_words, subscription_merge_type, subscription_step,
    ConsoleCommand, SubAction,
};

fn strings(xs: &[&str]) -> Vec<String> {
    xs.iter().map(|s| s.to_string()).collect()
}

#[test]
fn subscription_skips_echo_after_first_update() {
    let vs = strings(&["peer1-3"]);
    assert_eq!(subscription_step(false, "peer1", Some("peer1-3"), None, &vs, 0, true), (SubAction::SkipEcho, false));
    assert_eq!(subscription_step(true, "peer1", Some("peer1-3"), None, &vs, 0, true), (SubAction::Snapshot, false));
}

#[test]
fn subscription_skips_known_version_and_picks_work() {
    let vs = strings(&["a-1"]);
    let stored = strings(&["a-1"]);
    let other = strings(&["a-0"]);
    assert_eq!(subscription_step(false, "me", Some("a-1"), Some(&stored), &vs, 2, true), (SubAction::SkipKnown, false));
    assert_eq!(subscription_step(false, "me", Some("a-1"), Some(&other), &vs, 2, true), (SubAction::ApplyPatches, false));
    assert_eq!(subscription_step(false, "me", Some("a-1"), None, &vs, 0, false), (SubAction::RecordOnly, false));
}

#[test]
fn subscription_merge_types() {
    assert_eq!(snapshot_merge_type(None), "simpleton");
    assert_eq!(snapshot_merge_type(Some("diamond")), "diamond");
    assert_eq!(subscription_merge_type("https://braid.org/x"), Some("simpleton"));
    assert_eq!(subscription_merge_type("https://example.com/x"), None);
}

#[test]
fn chunks_become_range_patches() {
    let chunks = vec![
        (ChunkKind::Equal, "ab".to_string()),
        (ChunkKind::Delete, "c".to_string()),
        (ChunkKind::Insert, "xé".to_string()),
        (ChunkKind::Equal, "d".to_string()),
    ];
    let ps = chunks_to_patches(&chunks);
    assert_eq!(ps.len(), 2);
    assert_eq!(ps[0].range, "[2:3]");
    assert_eq!(ps[0].content, "");
    assert_eq!(ps[1].range, "[2:2]");
    assert_eq!(ps[1].content, "xé");
    assert_eq!(ps[1].content_length, Some(3));
}

#[test]
fn text_merge_types_and_json_bodies() {
    assert!(is_text_merge_type(Some("simpleton")));
    assert!(is_text_merge_type(Some("braid-text")));
    assert!(is_text_merge_type(Some("diamond")));
    assert!(!is_text_merge_type(Some("antimatter")));
    assert!(!is_text_merge_type(None));
    assert!(looks_like_json_object("{\"inserts\":[]}"));
    assert!(!looks_like_json_object("{"));
    assert!(!looks_like_json_object("plain"));
}

#[test]
fn resource_takes_new_versions_only() {
    let mut r = ResourceState::new("alice", Some("diamond"), 0);
    assert!(r.takes_update(Some("v1"), Some("diamond")));
    assert!(!r.takes_update(Some("v1"), Some("simpleton")));
    let _ = r.apply_update("hi", Some("v1"), Some("diamond"), 1);
    assert!(!r.takes_update(Some("v1"), None));
    assert!(r.takes_update(Some("v2"), None));
}

fn apply_text_patches(text: &str, patches: &[braid_core::diff::TextPatch]) -> String {
    let mut chars: Vec<char> = text.chars().collect();
    for p in patches {
        let inner = &p.range[1..p.range.len() - 1];
        let (a, b) = inner.split_once(':').unwrap();
        let (s, e): (usize, usize) = (a.parse().unwrap(), b.parse().unwrap());
        let tail: Vec<char> = chars[e..].to_vec();
        chars.truncate(s);
        chars.extend(p.content.chars());
        chars.extend(tail);
    }
    chars.into_iter().collect()
}

#[test]
fn computed_patches_turn_the_old_text_into_the_new() {
    for (a, b) in [("hello world", "hello there"), ("", "abc"), ("abc", ""), ("héllo", "hallo wörld")] {
        let ps = braid_core::diff::compute_patches(a, b);
        assert_eq!(apply_text_patches(a, &ps), b);
    }
}

#[test]
fn console_commands_parse_by_words() {
    assert_eq!(split_words("  token  braid.org   abc \t"), vec!["token", "braid.org", "abc"]);
    assert!(matches!(parse_console_command("   "), ConsoleCommand::Empty));
    match parse_console_command("cookie braid.org client=xyz") {
        ConsoleCommand::SetCookie { domain, value } => {
            assert_eq!(domain, "braid.org");
            assert_eq!(value, "client=xyz");
        }
        other => panic!("unexpected {:?}", other),
    }
    match parse_console_command("sync https://braid.org/tino") {
        ConsoleCommand::Sync { url } => assert_eq!(url, "https://braid.org/tino"),
        other => panic!("unexpected {:?}", other),
    }
    assert!(matches!(parse_console_command("help"), ConsoleCommand::Help));
    match parse_console_command("token braid.org") {
        ConsoleCommand::Unknown { word } => assert_eq!(word, "token"),
        other => panic!("unexpected {:?}", other),
    }
}

#[test]
fn staleness_needs_more_than_the_timeout() {
    assert!(is_stale(1000, 100, 899));
    assert!(!is_stale(1000, 100, 900));
    assert!(!is_stale(100, 1000, 0));
}

#[test]
fn directory_listing_keeps_immediate_children() {
    assert_eq!(child_name("/", "/braid.org").as_deref(), Some("braid.org"));
    assert_eq!(child_name("/", "/braid.org/tino"), None);
    assert_eq!(child_name("/braid.org", "/braid.org/tino").as_deref(), Some("tino"));
    assert_eq!(child_name("/braid.org", "/braid.org/tino/x"), None);
    assert_eq!(child_name("/braid.org", "/braid.org"), None);
    assert_eq!(child_name("/braid.org", "/braid.orgx/y"), None);
}
