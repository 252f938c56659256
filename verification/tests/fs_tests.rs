use braid_core::blob_names::{compare_seqs, compare_versions, encode_filename, get_event_seq};
use braid_core::blob_store::{blob_file_path, plan_put, upload_key, verify_blob, BlobMetadata, PutPlan};
use braid_core::server::BraidError;
use braid_core::collections::StrMap;
use braid_core::diff::compute_patches;
use braid_core::fs_state::{ActivityTracker, DebounceQueue, FileVersion, PendingWrites, ScanState, VersionStore};
use braid_core::layout::{ai_dir, chat_export_dir, chat_export_path, join, peers_dir};
use braid_core::mapping::{
    extract_markdown, is_well_formed_absolute_url, normalize_url, path_join, url_from_components, url_to_path,
    url_to_vpath,
    wrap_markdown,
};
use braid_core::rate_limiter::ReconnectRateLimiter;
use braid_core::sync_rules::{
    cookie_header, flatten_parents, identity_peer_id, is_echo, is_ignored_path, keep_sync_url, new_version_id,
    push_error_status,
    server_wins,
};

#[test]
fn test_chat_export_dir() {
    let ai_participants = vec!["Alice".to_string(), "@BraidBot".to_string()];
    let peer_participants = vec!["Alice".to_string(), "Bob".to_string()];
    assert!(chat_export_dir("/home/me/braid", &ai_participants).ends_with("ai"));
    assert!(chat_export_dir("/home/me/braid", &peer_participants).ends_with("peers"));
}

#[test]
fn layout_paths_sit_under_the_root() {
    assert_eq!(ai_dir("/r"), "/r/ai");
    assert_eq!(peers_dir("/r/"), "/r/peers");
    assert_eq!(join("", "x"), "x");
    let robots = vec!["RoBot".to_string()];
    assert_eq!(chat_export_path("/r", "c1", &robots), "/r/ai/c1.md");
    assert_eq!(chat_export_path("/r", "c1", &[]), "/r/peers/c1.md");
}

#[test]
fn test_extract_markdown() {
    let html = "<html><script type=\"statebus\">hello world</script></html>";
    assert_eq!(extract_markdown(html), "hello world");
}

#[test]
fn extract_markdown_keeps_plain_text() {
    assert_eq!(extract_markdown("# just markdown"), "# just markdown");
}

#[test]
fn test_wrap_markdown() {
    let html = "<html><script type=\"statebus\">hello world</script></html>";
    let wrapped = wrap_markdown(html, "new content");
    assert!(wrapped.contains("<script type=\"statebus\">"));
    assert!(wrapped.contains("new content"));
    assert!(wrapped.contains("</script>"));
}

#[test]
fn wrapped_markdown_extracts_back() {
    let html = "<html><script type=\"statebus\">hello world</script></html>";
    let wrapped = wrap_markdown(html, "new content");
    assert_eq!(extract_markdown(&wrapped), "new content");
}

#[test]
fn test_url_to_path() {
}

#[test]
fn urls_map_to_paths_under_the_root() {
    assert_eq!(url_to_path("/r", "https://braid.org/foo/bar"), Ok("/r/braid.org/foo/bar".to_string()));
    assert_eq!(url_to_path("/r", "braid.org/wiki/"), Ok("/r/braid.org/wiki/index".to_string()));
    assert_eq!(url_to_path("/r", "https://braid.org"), Ok("/r/braid.org/index".to_string()));
    assert_eq!(url_to_path("/r", "localhost:8888/a"), Ok("/r/localhost+8888/a".to_string()));
    assert_eq!(url_to_path("/r", "https:\\\\braid.org\\x"), Ok("/r/braid.org/x".to_string()));
}

#[test]
fn urls_without_host_have_no_path() {
    assert_eq!(url_to_path("/r", "mailto:me@example.com"), Err("URL missing host".to_string()));
    assert!(url_to_path("/r", "not a url").is_err());
}

#[test]
fn test_path_join() {
    assert_eq!(path_join("/", "foo"), "/foo");
    assert_eq!(path_join("/bar", "baz"), "/bar/baz");
}

#[test]
fn test_normalize_url() {
    assert_eq!(normalize_url("http://example.com/path/index"), "http://example.com/path");
    assert_eq!(normalize_url("http://example.com/index/index"), "http://example.com");
    assert_eq!(normalize_url("http://example.com/path/"), "http://example.com/path");
    assert_eq!(normalize_url("http://example.com"), "http://example.com");
}

#[test]
fn test_is_well_formed_absolute_url() {
    assert!(is_well_formed_absolute_url("http://example.com"));
    assert!(is_well_formed_absolute_url("https://braid.org/path"));
    assert!(!is_well_formed_absolute_url("not-a-url"));
    assert!(!is_well_formed_absolute_url("relative/path"));
}

#[test]
fn test_rate_limiter_basic() {
    let mut limiter = ReconnectRateLimiter::new(100);
    let delay = limiter.get_turn("http://example.com", 0);
    assert!(delay <= 100);
}

#[test]
fn test_rate_limiter_on_conn_diss() {
    let mut limiter = ReconnectRateLimiter::new(100);
    limiter.on_conn("http://example.com", 0);
    assert!(limiter.is_connected("http://example.com"));
    limiter.on_diss("http://example.com", 10);
    assert!(!limiter.is_connected("http://example.com"));
    assert_eq!(limiter.failure_count("http://example.com"), 1);
}

#[test]
fn test_rate_limiter_exponential_backoff() {
    let mut limiter = ReconnectRateLimiter::new(100);
    for _ in 0..5 {
        limiter.on_diss("http://example.com", 0);
    }
    assert_eq!(limiter.failure_count("http://example.com"), 5);
}

#[test]
fn rate_limiter_waits_grow_with_failures_and_vanish_when_connected() {
    let mut limiter = ReconnectRateLimiter::new(100);
    limiter.on_diss("u", 1000);
    limiter.on_diss("u", 1000);
    assert_eq!(limiter.get_turn("u", 1050), 250);
    assert_eq!(limiter.get_turn("u", 5000), 0);
    for _ in 0..20 {
        limiter.on_diss("u", 2000);
    }
    assert_eq!(limiter.get_turn("u", 2000), 1100);
    limiter.on_conn("u", 3000);
    assert_eq!(limiter.get_turn("u", 3000), 0);
    assert_eq!(limiter.failure_count("u"), 0);
    limiter.reset("u");
    assert!(!limiter.is_connected("u"));
}

#[test]
fn encoded_names_mark_capitals_and_escape_separators() {
    assert_eq!(encode_filename("Hello"), "Hello.10");
    assert_eq!(encode_filename("hello"), "hello.0");
    assert_eq!(encode_filename("123"), "123.0");
    assert_eq!(encode_filename("a/b"), "a!b.0");
    assert_eq!(encode_filename("a!b"), "a%2Fb.0");
    assert_eq!(encode_filename("a:b"), "a%3Ab.0");
}

#[test]
fn encoded_names_avoid_reserved_device_names() {
    assert_eq!(encode_filename("con"), "co%6E.0");
    assert_eq!(encode_filename("Com1.txt"), "Co%6D1.txt.20");
    assert_eq!(encode_filename("com0"), "com0.0");
}

#[test]
fn versions_order_by_sequence_then_text() {
    assert_eq!(get_event_seq("x-y-3"), "3");
    assert_eq!(get_event_seq("abc"), "abc");
    assert_eq!(get_event_seq(""), "");
    assert_eq!(compare_seqs("10", "9"), 1);
    assert_eq!(compare_seqs("9", "10"), -1);
    assert_eq!(compare_seqs("12", "13"), -1);
    assert_eq!(compare_versions("alice-10", "alice-9"), 1);
    assert_eq!(compare_versions("a-2", "b-2"), -1);
    assert_eq!(compare_versions("b-2", "b-2"), 0);
}

#[test]
fn pending_writes_expire() {
    let mut p = PendingWrites::new();
    p.add("dir\\file.txt", 1000);
    assert!(p.should_ignore("dir/file.txt", 1050));
    assert!(!p.should_ignore("dir/file.txt", 1100));
    assert!(!p.should_ignore("dir/file.txt", 1050));
    p.add("a", 0);
    p.remove("a");
    assert!(!p.should_ignore("a", 1));
}

#[test]
fn activity_lasts_ten_minutes() {
    let mut t = ActivityTracker::new();
    assert!(!t.is_active("u", 0));
    t.mark("u", 1000);
    assert!(t.is_active("u", 600_999));
    assert!(!t.is_active("u", 601_000));
    assert!(t.is_active("u", 0));
}

#[test]
fn version_store_finds_versions_by_hash() {
    let mut s = VersionStore { file_versions: StrMap::new(), path: "store.json".to_string() };
    s.update("u1", vec!["v1".to_string()], vec![]);
    s.update_with_hash("u2", vec!["v2".to_string()], vec!["v1".to_string()], Some("h2".to_string()));
    assert_eq!(s.get_version_by_hash("", "h2"), Some(vec!["v2".to_string()]));
    assert_eq!(s.get_version_by_hash("", "h1"), None);
    s.set_content_hash("u1", "h1".to_string());
    assert_eq!(s.get_version_by_hash("", "h1"), Some(vec!["v1".to_string()]));
    s.set_content_hash("nope", "h3".to_string());
    assert!(s.get("nope").is_none());
    let f: &FileVersion = s.get("u2").unwrap();
    assert_eq!(f.parents, vec!["v1".to_string()]);
}

fn comps(parts: &[&str]) -> Vec<String> {
    parts.iter().map(|p| p.to_string()).collect()
}

#[test]
fn paths_below_the_root_map_to_urls() {
    assert_eq!(url_from_components(&comps(&["braid.org", "wiki", "index"])), Ok("https://braid.org/wiki".to_string()));
    assert_eq!(url_from_components(&comps(&["braid.org"])), Ok("https://braid.org/".to_string()));
    assert_eq!(url_from_components(&comps(&["localhost+8888", "a"])), Ok("http://localhost:8888/a".to_string()));
}

#[test]
fn some_paths_have_no_url() {
    assert_eq!(url_from_components(&comps(&[])), Err("Path too short".to_string()));
    assert_eq!(url_from_components(&comps(&[".git", "x"])), Err("Ignoring dotfile/directory".to_string()));
    assert_eq!(url_from_components(&comps(&["h+abc"])), Err("invalid digit found in string".to_string()));
    assert_eq!(url_from_components(&comps(&["h+70000"])), Err("number too large to fit in target type".to_string()));
}

fn patch_list(a: &str, b: &str) -> Vec<(String, String, Option<usize>)> {
    compute_patches(a, b).into_iter().map(|p| {
        assert_eq!(p.unit, "text");
        (p.range, p.content, p.content_length)
    }).collect()
}

#[test]
fn equal_texts_need_no_patch() {
    assert!(patch_list("hello", "hello").is_empty());
}

#[test]
fn patches_delete_then_insert_at_character_positions() {
    assert_eq!(
        patch_list("abc", "axc"),
        vec![("[1:2]".to_string(), String::new(), Some(0)), ("[1:1]".to_string(), "x".to_string(), Some(1))]
    );
    assert_eq!(patch_list("", "hi"), vec![("[0:0]".to_string(), "hi".to_string(), Some(2))]);
    assert_eq!(patch_list("hello", "héllo")[1], ("[1:1]".to_string(), "é".to_string(), Some(2)));
}

#[test]
fn urls_map_to_virtual_paths() {
    assert_eq!(url_to_vpath("https://braid.org/a//b"), Ok("/braid.org/a/b".to_string()));
    assert_eq!(url_to_vpath("http://localhost:8888/"), Ok("/localhost+8888/index".to_string()));
    assert_eq!(url_to_vpath("https://braid.org"), Ok("/braid.org/index".to_string()));
    assert_eq!(url_to_vpath("mailto:x@y.z"), Err("URL missing host".to_string()));
}

#[test]
fn cookies_name_their_token() {
    assert_eq!(cookie_header("a=b", "braid.org"), "a=b");
    assert_eq!(cookie_header("xyz", "braid.org"), "client=xyz");
    assert_eq!(cookie_header("xyz", "example.com"), "token=xyz");
}

#[test]
fn identities_give_peer_ids() {
    assert_eq!(identity_peer_id("peer", Some("bob@mail.org")), "bob");
    assert_eq!(identity_peer_id("peer", Some("bob")), "bob");
    assert_eq!(identity_peer_id("peer", None), "peer");
}

#[test]
fn echoes_and_server_wins() {
    assert!(!is_echo(true, Some("me-3"), "me"));
    assert!(is_echo(false, Some("me-3"), "me"));
    assert!(!is_echo(false, Some("you-3"), "me"));
    assert!(!is_echo(false, None, "me"));
    assert!(server_wins("a", "b"));
    assert!(!server_wins("", "b"));
    assert!(!server_wins("b", "b"));
}

#[test]
fn parents_flatten_to_one_per_peer() {
    let ps: Vec<String> = ["alice-3", "bob-1", "alice-5", "temp-9", "missing-1", "alice-4", "plain", "bob-0"]
        .iter()
        .map(|s| s.to_string())
        .collect();
    let mut out = flatten_parents(&ps);
    out.sort();
    assert_eq!(out, vec!["alice-5".to_string(), "bob-1".to_string(), "plain".to_string()]);
}

#[test]
fn version_order_is_transitive_on_examples() {
    assert!(compare_versions("a-1", "a-2") < 0);
    assert!(compare_versions("a-2", "a-10") < 0);
    assert!(compare_versions("a-1", "a-10") < 0);
    assert!(compare_versions("b-10", "a-10") > 0);
}

#[test]
fn new_version_ids_are_peer_and_random_suffix() {
    let v = new_version_id("me");
    assert_eq!(v.len(), 11);
    assert!(v.starts_with("me-"));
    assert!(v[3..].chars().all(|c| c.is_ascii_hexdigit() || c == '-'));
    assert_ne!(new_version_id("me"), new_version_id("me"));
}

#[test]
fn push_failures_are_classified() {
    assert_eq!(push_error_status("HTTP 401"), "unauthorized");
    assert_eq!(push_error_status("Unauthorized access"), "unauthorized");
    assert_eq!(push_error_status("403 Forbidden"), "forbidden");
    assert_eq!(push_error_status("timeout"), "error");
}

fn meta_with(version: &str, hash: Option<&str>) -> BlobMetadata {
    BlobMetadata {
        key: "k".to_string(),
        version: vec![version.to_string()],
        content_type: None,
        parents: vec![],
        content_hash: hash.map(|h| h.to_string()),
        size: Some(3),
    }
}

const ABC_SHA256: &str = "ba7816bf8f01cfea414140de5dae2223b00361a396177a9cb410ff61f20015ad";

#[test]
fn a_new_blob_is_written_with_its_hash_and_size() {
    match plan_put(None, "k", b"abc", vec!["a-1".to_string()], vec!["a-0".to_string()], Some("text/plain".to_string())) {
        PutPlan::Write(m) => {
            assert_eq!(m.key, "k");
            assert_eq!(m.version, vec!["a-1".to_string()]);
            assert_eq!(m.parents, vec!["a-0".to_string()]);
            assert_eq!(m.content_type.as_deref(), Some("text/plain"));
            assert_eq!(m.content_hash.as_deref(), Some(ABC_SHA256));
            assert_eq!(m.size, Some(3));
        }
        other => panic!("unexpected {:?}", other),
    }
}

#[test]
fn older_puts_keep_the_stored_blob() {
    let stored = meta_with("a-2", None);
    match plan_put(Some(&stored), "k", b"x", vec!["a-1".to_string()], vec![], None) {
        PutPlan::Keep(vs) => assert_eq!(vs, vec!["a-2".to_string()]),
        other => panic!("unexpected {:?}", other),
    }
    assert!(matches!(plan_put(Some(&stored), "k", b"x", vec!["a-2".to_string()], vec![], None), PutPlan::Keep(_)));
    assert!(matches!(plan_put(Some(&stored), "k", b"x", vec!["a-10".to_string()], vec![], None), PutPlan::Write(_)));
}

#[test]
fn blobs_are_checked_against_their_hash() {
    assert!(verify_blob("k", b"abc", &meta_with("a-1", Some(ABC_SHA256))).is_ok());
    assert!(verify_blob("k", b"abc", &meta_with("a-1", None)).is_ok());
    match verify_blob("k", b"abd", &meta_with("a-1", Some(ABC_SHA256))) {
        Err(BraidError::Fs(msg)) => {
            assert!(msg.starts_with("Checksum mismatch for blob k: expected ba7816bf"));
            assert!(msg.contains(", got "));
        }
        other => panic!("unexpected {:?}", other),
    }
}

#[test]
fn blob_files_use_encoded_names() {
    assert_eq!(blob_file_path("/db", "Hello"), "/db/Hello.10");
    assert_eq!(blob_file_path("/db/", "a/b"), "/db/a!b.0");
}

#[test]
fn dead_sync_urls_are_dropped() {
    assert!(keep_sync_url("https://braid.org/meeting-100"));
    assert!(!keep_sync_url("https://braid.org/Main"));
    assert!(!keep_sync_url("https://braid.org/"));
    assert!(!keep_sync_url("https://mail.braid.org/x"));
    assert!(!keep_sync_url("https://braid.org/tino/page"));
    assert!(keep_sync_url("https://example.com/Main"));
}

#[test]
fn scans_run_one_at_a_time_and_notice_changed_files() {
    let mut s = ScanState::new();
    assert!(s.try_start());
    assert!(!s.try_start());
    assert!(s.note_file("/r/a.txt", 10));
    assert!(!s.note_file("/r/a.txt", 10));
    assert!(s.note_file("/r/a.txt", 11));
    s.finish();
    assert!(s.try_start());
    s.on_watcher_miss();
    assert_eq!(s.watcher_misses, 1);
}

#[test]
fn debounced_requests_fall_due_after_their_delay() {
    let mut q = DebounceQueue::new(100);
    q.request("u1".to_string(), "/r/a".to_string(), 1000);
    assert!(q.take_due(1005).is_empty());
    q.request("u1".to_string(), "/r/b".to_string(), 1005);
    assert!(q.take_due(1020).is_empty());
    q.request("u2".to_string(), "/r/c".to_string(), 1010);
    let mut due = q.take_due(1020);
    due.sort();
    assert_eq!(due, vec![("u2".to_string(), "/r/c".to_string())]);
    let due = q.take_due(1105);
    assert_eq!(due, vec![("u1".to_string(), "/r/b".to_string())]);
    assert!(q.take_due(5000).is_empty());
}

#[test]
fn hidden_and_temporary_files_are_ignored() {
    assert!(is_ignored_path(&comps(&["braid.org", ".git", "x"])));
    assert!(is_ignored_path(&comps(&["braid.org", "page.tmp"])));
    assert!(is_ignored_path(&comps(&["meta.sqlite"])));
    assert!(is_ignored_path(&comps(&["meta.sqlite-journal"])));
    assert!(is_ignored_path(&comps(&["inodes.db"])));
    assert!(!is_ignored_path(&comps(&["braid.org", "page"])));
    assert!(!is_ignored_path(&comps(&[])));
}

#[test]
fn uploads_are_keyed_by_their_hash() {
    let (hash, key) = upload_key(b"abc");
    assert_eq!(hash, ABC_SHA256);
    assert_eq!(key, format!("blob:{}", ABC_SHA256));
    assert_eq!(upload_key(b"").0, "e3b0c44298fc1c149afbf4c8996fb92427ae41e4649b934ca495991b7852b855");
}

#[test]
fn normalize_url_strips_mixed_tail() {
    assert_eq!(normalize_url("http://x.com/a/index/"), "http://x.com/a");
    assert_eq!(normalize_url("http://x.com/a//index/index//"), "http://x.com/a");
    assert_eq!(normalize_url("http://x.com/reindex"), "http://x.com/reindex");
}

#[test]
fn markdown_round_trips_through_a_statebus_page() {
    let page = "<html><body><script type=\"statebus\">old text</script></body></html>";
    let wrapped = wrap_markdown(page, "# New\n- item");
    assert_eq!(extract_markdown(&wrapped), "# New\n- item");
    assert_eq!(extract_markdown(&wrap_markdown("plain", "just text")), "just text");
}

#[test]
fn wrapped_markdown_reads_back_trimmed() {
    let page = "<html><script type=\"statebus\">old</script></html>";
    let wrapped = wrap_markdown(page, "  new text \n");
    assert_eq!(extract_markdown(&wrapped), "new text");
    let emptied = wrap_markdown(page, "   ");
    assert_eq!(extract_markdown(&emptied), "");
}
