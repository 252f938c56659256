use braid_core::local_sync::{
    binary_parents, binary_version_id, normalize_versions, plan_text_push, read_server_reply,
    sync_url, trim_quotes, PushPlan,
};

fn strings(xs: &[&str]) -> Vec<String> {
    xs.iter().map(|s| s.to_string()).collect()
}

#[test]
fn trim_quotes_strips_both_ends() {
    assert_eq!(trim_quotes("\"\"abc\""), "abc");
    assert_eq!(trim_quotes("\"\"\""), "");
    assert_eq!(trim_quotes("a\"b"), "a\"b");
}

#[test]
fn sync_url_strips_quotes_then_spaces() {
    assert_eq!(sync_url("\" https://braid.org/x \""), "https://braid.org/x");
}

#[test]
fn server_reply_with_other_text_wins() {
    let r = read_server_reply("local", "remote", &strings(&["\"\"", "a-1", "\"b-2\""]));
    assert_eq!(r.winner.as_deref(), Some("remote"));
    assert_eq!(r.parents, strings(&["a-1", "\"b-2\""]));
    assert_eq!(r.version.as_deref(), Some("\"b-2\""));
}

#[test]
fn server_reply_with_same_or_empty_text_loses() {
    let r = read_server_reply("same", "same", &Vec::new());
    assert!(r.winner.is_none());
    assert!(r.parents.is_empty());
    assert!(r.version.is_none());
    let r = read_server_reply("local", "", &Vec::new());
    assert!(r.winner.is_none());
}

#[test]
fn text_push_skips_without_patches() {
    assert!(matches!(plan_text_push(0, &strings(&["a-1"]), Some("b-1")), PushPlan::Skip));
}

#[test]
fn text_push_adds_previous_and_flattens() {
    match plan_text_push(2, &strings(&["a-1", "temp-x", "a-3"]), Some("b-1")) {
        PushPlan::Put(mut ps) => {
            ps.sort();
            assert_eq!(ps, strings(&["a-3", "b-1"]));
        }
        PushPlan::Skip => panic!("expected a push"),
    }
}

#[test]
fn binary_parents_use_server_versions_when_none_known() {
    let vs = strings(&["\"a-1\"", "\"\"", "missing-2"]);
    assert_eq!(normalize_versions(&vs), strings(&["a-1", "missing-2"]));
    assert_eq!(binary_parents(&Vec::new(), &vs), strings(&["a-1"]));
    assert_eq!(binary_parents(&strings(&["temp-1", "c-4"]), &vs), strings(&["c-4"]));
}

#[test]
fn binary_version_names_peer_and_time() {
    assert_eq!(binary_version_id("peer", 1700000000123), "peer-1700000000123");
}
