use braid_core::antimatter::{AntimatterCrdt, Message, Patch, PrunableCrdt};
use braid_core::collections::StrMap;
use braid_core::json_crdt::PatchContent;

/// A CRDT for exercising the coordination layer: a plain string that
/// applies patches by byte position.
#[derive(Default)]
struct MockSequenceCrdt {
    content: String,
    seq: u64,
}

impl PrunableCrdt for MockSequenceCrdt {
    fn apply_patch(&mut self, patch: Patch) {
        self.seq += 1;
        let range = &patch.range;
        let content = match &patch.content {
            PatchContent::Text(s) => s.as_str(),
            PatchContent::Json(_) => "",
        };
        if range.contains(':') {
            let parts: Vec<&str> = range.split(':').collect();
            if parts.len() == 2 {
                if let (Ok(start), Ok(end)) = (parts[0].parse::<usize>(), parts[1].parse::<usize>()) {
                    let start = start.min(self.content.len());
                    let end = end.min(self.content.len());
                    self.content = format!("{}{}{}", &self.content[..start], content, &self.content[end..]);
                }
            }
        } else if let Ok(pos) = range.parse::<usize>() {
            let pos = pos.min(self.content.len());
            self.content = format!("{}{}{}", &self.content[..pos], content, &self.content[pos..]);
        }
    }

    fn prune(&mut self, _version: &str) {}

    fn get_next_seq(&self) -> u64 {
        self.seq
    }

    fn generate_braid(&self, _known_versions: &StrMap<bool>) -> Vec<(String, StrMap<bool>, Vec<Patch>)> {
        Vec::new()
    }
}

impl MockSequenceCrdt {
    fn new() -> Self {
        Self::default()
    }

    fn content(&self) -> &str {
        &self.content
    }
}

fn text_patch(range: &str, text: &str) -> Patch {
    Patch { range: range.to_string(), content: PatchContent::Text(text.to_string()) }
}

fn parents_of(vs: &[&str]) -> StrMap<bool> {
    let mut m = StrMap::new();
    for v in vs {
        m.insert(v.to_string(), true);
    }
    m
}

fn peer() -> AntimatterCrdt<MockSequenceCrdt> {
    AntimatterCrdt::new(Some("alice".to_string()), MockSequenceCrdt::new())
}

#[test]
fn test_mock_crdt_insert() {
    let mut crdt = MockSequenceCrdt::new();
    crdt.apply_patch(text_patch("0", "hello"));
    assert_eq!(crdt.content(), "hello");
}

#[test]
fn test_mock_crdt_append() {
    let mut crdt = MockSequenceCrdt::new();
    crdt.apply_patch(text_patch("0", "hello"));
    crdt.apply_patch(text_patch("5", " world"));
    assert_eq!(crdt.content(), "hello world");
}

#[test]
fn test_mock_crdt_replace() {
    let mut crdt = MockSequenceCrdt::new();
    crdt.apply_patch(text_patch("0", "hello"));
    crdt.apply_patch(text_patch("1:4", "i"));
    assert_eq!(crdt.content(), "hio");
}

#[test]
fn tests_test_antimatter_creation() {
    let crdt = peer();
    assert_eq!(crdt.id, "alice");
    assert!(crdt.t.is_empty());
    assert!(crdt.current_version.is_empty());
}

#[test]
fn random_peer_ids_have_twelve_characters() {
    let a = AntimatterCrdt::new(None, MockSequenceCrdt::new());
    let b = AntimatterCrdt::new(None, MockSequenceCrdt::new());
    assert_eq!(a.id.chars().count(), 12);
    assert_eq!(b.id.chars().count(), 12);
    assert_ne!(a.id, b.id);
}

#[test]
fn test_antimatter_add_version() {
    let mut crdt = peer();
    let patches = crdt.add_version("1@alice".to_string(), StrMap::new(), vec![text_patch("0", "hello")]);
    assert_eq!(patches.len(), 1);
    assert!(crdt.t.contains_key("1@alice"));
    assert!(crdt.current_version.contains_key("1@alice"));
    assert_eq!(crdt.crdt.content(), "hello");
}

#[test]
fn adding_a_known_version_again_changes_nothing() {
    let mut crdt = peer();
    crdt.add_version("1@alice".to_string(), StrMap::new(), vec![text_patch("0", "hello")]);
    let again = crdt.add_version("1@alice".to_string(), StrMap::new(), vec![text_patch("0", "hello")]);
    assert!(again.is_empty());
    assert_eq!(crdt.crdt.content(), "hello");
    assert_eq!(crdt.t.len(), 1);
}

#[test]
fn test_antimatter_version_parents() {
    let mut crdt = peer();
    crdt.add_version("1@alice".to_string(), StrMap::new(), vec![text_patch("0", "hello")]);
    crdt.add_version("2@alice".to_string(), parents_of(&["1@alice"]), vec![text_patch("5", " world")]);
    assert!(crdt.t.contains_key("2@alice"));
    assert!(crdt.current_version.contains_key("2@alice"));
    assert!(!crdt.current_version.contains_key("1@alice"));
    assert_eq!(crdt.crdt.content(), "hello world");
}

fn chain() -> AntimatterCrdt<MockSequenceCrdt> {
    let mut crdt = peer();
    crdt.add_version("1@alice".to_string(), StrMap::new(), vec![]);
    crdt.add_version("2@alice".to_string(), parents_of(&["1@alice"]), vec![]);
    crdt.add_version("3@alice".to_string(), parents_of(&["2@alice"]), vec![]);
    crdt
}

#[test]
fn test_antimatter_ancestors() {
    let crdt = chain();
    let ancestors = crdt.ancestors(&parents_of(&["3@alice"]), false).unwrap();
    assert!(ancestors.contains_key("3@alice"));
    assert!(ancestors.contains_key("2@alice"));
    assert!(ancestors.contains_key("1@alice"));
}

#[test]
fn ancestors_of_an_unknown_version_is_an_error() {
    let crdt = chain();
    assert!(crdt.ancestors(&parents_of(&["9@bob"]), false).is_err());
    let found = crdt.ancestors(&parents_of(&["9@bob"]), true).unwrap();
    assert!(found.is_empty());
}

#[test]
fn test_antimatter_descendants() {
    let crdt = chain();
    let descendants = crdt.descendants(&parents_of(&["1@alice"]), false).unwrap();
    assert!(descendants.contains_key("1@alice"));
    assert!(descendants.contains_key("2@alice"));
    assert!(descendants.contains_key("3@alice"));
}

#[test]
fn test_antimatter_get_leaves() {
    let mut crdt = peer();
    crdt.add_version("1@alice".to_string(), StrMap::new(), vec![]);
    crdt.add_version("2@alice".to_string(), parents_of(&["1@alice"]), vec![]);
    let leaves = crdt.get_leaves(&parents_of(&["1@alice", "2@alice"]));
    assert!(leaves.contains_key("2@alice"));
    assert!(!leaves.contains_key("1@alice"));
}

#[test]
fn test_antimatter_prune_empty() {
    let mut crdt = peer();
    assert!(!crdt.prune(true));
}

#[test]
fn checking_prune_leaves_the_peer_unchanged() {
    let mut crdt = chain();
    crdt.prune(true);
    assert_eq!(crdt.t.len(), 3);
    assert!(crdt.current_version.contains_key("3@alice"));
}

#[test]
fn subscribe_sends_a_subscription() {
    let mut crdt = peer();
    crdt.subscribe("c1".to_string());
    assert_eq!(crdt.outbox.len(), 1);
    match &crdt.outbox[0] {
        Message::Subscribe { peer, conn, protocol_version, .. } => {
            assert_eq!(peer, "alice");
            assert_eq!(conn, "c1");
            assert_eq!(*protocol_version, Some(1));
        }
        other => panic!("unexpected message {:?}", other),
    }
    assert!(crdt.proto_conns.contains("c1"));
}

#[test]
fn a_subscription_is_answered_with_a_welcome() {
    let mut crdt = chain();
    let msg = Message::Subscribe {
        peer: "bob".to_string(),
        conn: "c2".to_string(),
        parents: StrMap::new(),
        protocol_version: Some(1),
    };
    let r = crdt.receive(msg, 10).unwrap();
    assert!(r.is_empty());
    match crdt.outbox.last().unwrap() {
        Message::Welcome { conn, peer, parents, .. } => {
            assert_eq!(conn, "c2");
            assert_eq!(peer.as_deref(), Some("alice"));
            assert!(parents.contains_key("3@alice"));
        }
        other => panic!("unexpected message {:?}", other),
    }
}

#[test]
fn an_update_message_adds_its_version() {
    let mut crdt = peer();
    let msg = Message::Update {
        version: "1@bob".to_string(),
        parents: StrMap::new(),
        patches: vec![text_patch("0", "hi")],
        conn: "c1".to_string(),
        ackme: None,
    };
    let r = crdt.receive(msg, 0).unwrap();
    assert_eq!(r.len(), 1);
    assert_eq!(crdt.crdt.content(), "hi");
    assert!(crdt.current_version.contains_key("1@bob"));
}

#[test]
fn local_update_makes_a_fresh_version_on_the_frontier() {
    let mut crdt = peer();
    let v = crdt.update(vec![text_patch("0", "abc")], 0);
    assert_eq!(v, "alice-1");
    assert_eq!(crdt.crdt.content(), "abc");
    assert!(crdt.current_version.contains_key("alice-1"));
    let w = crdt.update(vec![text_patch("3", "d")], 0);
    assert_eq!(w, "alice-2");
    assert!(!crdt.current_version.contains_key("alice-1"));
    assert_eq!(crdt.crdt.content(), "abcd");
}

#[test]
fn generate_random_id_counts_up() {
    let mut crdt = peer();
    assert_eq!(crdt.generate_random_id(), "alice-1");
    assert_eq!(crdt.generate_random_id(), "alice-2");
    assert_eq!(crdt.conn_count, 2);
}

#[test]
fn the_frontier_is_the_leaves_of_the_graph() {
    let mut crdt = peer();
    crdt.add_version("1@a".to_string(), StrMap::new(), vec![]);
    crdt.add_version("2@a".to_string(), parents_of(&["1@a"]), vec![]);
    crdt.add_version("3@b".to_string(), parents_of(&["1@a"]), vec![]);
    let mut frontier = crdt.current_version.keys();
    frontier.sort();
    assert_eq!(frontier, vec!["2@a".to_string(), "3@b".to_string()]);
    let all = parents_of(&["1@a", "2@a", "3@b"]);
    let mut leaves = crdt.get_leaves(&all).keys();
    leaves.sort();
    assert_eq!(leaves, frontier);
}

#[test]
fn random_peer_ids_are_uuid_characters() {
    let a = AntimatterCrdt::new(None, MockSequenceCrdt::new());
    assert!(a.id.chars().all(|c| c.is_ascii_hexdigit() && !c.is_ascii_uppercase() || c == '-'));
}
