//! State kept by the BraidFS daemon: writes to ignore, activity per URL,
//! scanning progress, file versions, and the commands and API parameters
//! it accepts.  Times are milliseconds, handed in by the caller.
use vstd::prelude::*;
use crate::collections::{StrMap, string_views};
use crate::text::{lowercase, push_char, to_lower};
use crate::antimatter::random_peer_id;

verus! {

/// `s` with every backslash turned into a slash.
pub open spec fn backslash_to_slash(s: Seq<char>) -> Seq<char> {
    s.map_values(|c: char| if c == '\\' { '/' } else { c })
}

/// The key a path is tracked under: lowercase, with forward slashes.
pub open spec fn path_key(path: Seq<char>) -> Seq<char> {
    backslash_to_slash(lowercase(path))
}

/// The key a path is tracked under.
fn normalize(path: &str) -> (k: String)
    ensures
        k@ == path_key(path@),
{
    let lower = to_lower(path);
    let l = lower.as_str();
    let n = l.unicode_len();
    let mut k = String::new();
    let mut i: usize = 0;
    while i < n
        invariant
            i <= n,
            n == l@.len(),
            l@ == lowercase(path@),
            k@ == backslash_to_slash(l@.subrange(0, i as int)),
        decreases n - i,
    {
        let c = l.get_char(i);
        push_char(&mut k, if c == '\\' { '/' } else { c });
        proof {
            assert(k@ =~= backslash_to_slash(l@.subrange(0, i + 1)));
        }
        i = i + 1;
    }
    proof {
        assert(l@.subrange(0, n as int) =~= l@);
    }
    k
}

/// How long a write of ours is ignored, in milliseconds.
pub const IGNORE_WINDOW_MS: u64 = 100;

/// Paths we just wrote ourselves, with the time until which the watcher's
/// events for them are ignored.
#[derive(Debug)]
pub struct PendingWrites {
    paths: StrMap<u64>,
}

impl PendingWrites {
    /// The expiry time of each tracked path key.
    pub closed spec fn expiries(&self) -> Map<Seq<char>, u64> {
        self.paths@
    }

    pub fn new() -> (p: Self)
        ensures
            p.expiries() == Map::<Seq<char>, u64>::empty(),
    {
        PendingWrites { paths: StrMap::new() }
    }

    /// Ignore events for this path for the next 100 ms.
    pub fn add(&mut self, path: &str, now_ms: u64)
        requires
            now_ms + IGNORE_WINDOW_MS <= u64::MAX,
        ensures
            final(self).expiries() == old(self).expiries().insert(path_key(path@), (now_ms + IGNORE_WINDOW_MS) as u64),
    {
        let k = normalize(path);
        self.paths.insert(k, now_ms + IGNORE_WINDOW_MS);
    }

    /// Stop ignoring events for this path.
    pub fn remove(&mut self, path: &str)
        ensures
            final(self).expiries() == old(self).expiries().remove(path_key(path@)),
    {
        let k = normalize(path);
        self.paths.remove(k.as_str());
    }

    /// Whether events for `path` are ignored at `now_ms`: its key is
    /// tracked and its window has not run out.
    pub open spec fn ignores(&self, path: Seq<char>, now_ms: u64) -> bool {
        self.expiries().contains_key(path_key(path)) && now_ms < self.expiries()[path_key(path)]
    }

    /// Whether an event for this path is to be ignored: it is while the
    /// path's window lasts; an expired entry is dropped.
    pub fn should_ignore(&mut self, path: &str, now_ms: u64) -> (b: bool)
        ensures
            b == old(self).ignores(path@, now_ms),
            final(self).expiries() == (if old(self).expiries().contains_key(path_key(path@)) && !b {
                old(self).expiries().remove(path_key(path@))
            } else {
                old(self).expiries()
            }),
    {
        let k = normalize(path);
        match self.paths.get(k.as_str()) {
            Some(expiry) => {
                if now_ms < *expiry {
                    true
                } else {
                    self.paths.remove(k.as_str());
                    false
                }
            },
            None => false,
        }
    }
}

/// A path just added is ignored, under any spelling with the same key,
/// exactly while its window lasts: before `IGNORE_WINDOW_MS` have passed
/// since it was added.
pub proof fn lemma_ignored_after_add(before: PendingWrites, after: PendingWrites, p: Seq<char>, q: Seq<char>, t0: u64, now_ms: u64)
    requires
        t0 + IGNORE_WINDOW_MS <= u64::MAX,
        after.expiries() == before.expiries().insert(path_key(p), (t0 + IGNORE_WINDOW_MS) as u64),
        path_key(q) == path_key(p),
    ensures
        after.ignores(q, now_ms) == (now_ms < t0 + IGNORE_WINDOW_MS),
{
}

/// A path removed is no longer ignored, under any spelling with the same
/// key.
pub proof fn lemma_not_ignored_after_remove(before: PendingWrites, after: PendingWrites, p: Seq<char>, q: Seq<char>, now_ms: u64)
    requires
        after.expiries() == before.expiries().remove(path_key(p)),
        path_key(q) == path_key(p),
    ensures
        !after.ignores(q, now_ms),
{
}

/// Once a check finds a path's window run out, the entry is gone and no
/// later check ignores the path.
pub proof fn lemma_expired_stays_expired(before: PendingWrites, after: PendingWrites, q: Seq<char>, now_ms: u64, later: u64)
    requires
        !before.ignores(q, now_ms),
        after.expiries() == (if before.expiries().contains_key(path_key(q)) {
            before.expiries().remove(path_key(q))
        } else {
            before.expiries()
        }),
    ensures
        !after.ignores(q, later),
{
}

/// A new set of pending writes ignores no path.
pub proof fn lemma_new_ignores_nothing(pw: PendingWrites, q: Seq<char>, now_ms: u64)
    requires
        pw.expiries() == Map::<Seq<char>, u64>::empty(),
    ensures
        !pw.ignores(q, now_ms),
{
}

/// How long a URL counts as active after its last activity, in milliseconds.
pub const ACTIVE_WINDOW_MS: u64 = 600_000;

/// The last activity time of each URL.
#[derive(Debug)]
pub struct ActivityTracker {
    activity: StrMap<u64>,
}

impl ActivityTracker {
    /// The last activity time of each URL.
    pub closed spec fn last_activity(&self) -> Map<Seq<char>, u64> {
        self.activity@
    }

    pub fn new() -> (t: Self)
        ensures
            t.last_activity() == Map::<Seq<char>, u64>::empty(),
    {
        ActivityTracker { activity: StrMap::new() }
    }

    /// Record activity on a URL now.
    pub fn mark(&mut self, url: &str, now_ms: u64)
        ensures
            final(self).last_activity() == old(self).last_activity().insert(url@, now_ms),
    {
        self.activity.insert(String::from_str(url), now_ms);
    }

    /// Whether the URL had activity in the last ten minutes (a last
    /// activity in the future counts as now).
    pub fn is_active(&self, url: &str, now_ms: u64) -> (b: bool)
        ensures
            b == (self.last_activity().contains_key(url@) && (if now_ms >= self.last_activity()[url@] {
                now_ms - self.last_activity()[url@]
            } else {
                0
            }) < ACTIVE_WINDOW_MS),
    {
        match self.activity.get(url) {
            Some(last) => {
                let elapsed = if now_ms >= *last { now_ms - *last } else { 0 };
                elapsed < ACTIVE_WINDOW_MS
            },
            None => false,
        }
    }
}

/// State for file scanning.
#[derive(Debug)]
pub struct ScanState {
    /// Last modification time for each tracked file.
    pub file_mtimes: StrMap<u128>,
    /// Whether a scan is currently running.
    pub running: bool,
    /// Number of watcher misses detected.
    pub watcher_misses: u32,
}

impl ScanState {
    pub fn new() -> (s: Self)
        ensures
            s.file_mtimes@ == Map::<Seq<char>, u128>::empty(),
            !s.running,
            s.watcher_misses == 0,
    {
        ScanState { file_mtimes: StrMap::new(), running: false, watcher_misses: 0 }
    }

    /// Start a scan unless one is running: whether it started.
    pub fn try_start(&mut self) -> (started: bool)
        ensures
            started == !old(self).running,
            final(self).running,
            final(self).file_mtimes == old(self).file_mtimes,
            final(self).watcher_misses == old(self).watcher_misses,
    {
        if self.running {
            false
        } else {
            self.running = true;
            true
        }
    }

    /// The scan is over.
    pub fn finish(&mut self)
        ensures
            !final(self).running,
            final(self).file_mtimes == old(self).file_mtimes,
            final(self).watcher_misses == old(self).watcher_misses,
    {
        self.running = false;
    }

    /// A file seen by a scan with modification time `mtime`: it needs a
    /// sync when it is new or its time changed, and then its time is
    /// recorded.
    pub fn note_file(&mut self, path: &str, mtime: u128) -> (needs_sync: bool)
        ensures
            needs_sync == !(old(self).file_mtimes@.contains_key(path@) && old(self).file_mtimes@[path@] == mtime),
            final(self).file_mtimes@ == (if needs_sync { old(self).file_mtimes@.insert(path@, mtime) } else { old(self).file_mtimes@ }),
            final(self).running == old(self).running,
            final(self).watcher_misses == old(self).watcher_misses,
    {
        let needs_sync = match self.file_mtimes.get(path) {
            Some(last) => *last != mtime,
            None => true,
        };
        if needs_sync {
            self.file_mtimes.insert(String::from_str(path), mtime);
        }
        needs_sync
    }

    /// The file watcher missed an event: one more miss is counted.
    pub fn on_watcher_miss(&mut self)
        requires
            old(self).watcher_misses < u32::MAX,
        ensures
            final(self).watcher_misses == old(self).watcher_misses + 1,
            final(self).file_mtimes == old(self).file_mtimes,
            final(self).running == old(self).running,
    {
        self.watcher_misses = self.watcher_misses + 1;
    }
}

/// The versions of a file.
#[derive(Debug)]
pub struct FileVersion {
    /// The current version (a set of version IDs)
    pub current_version: Vec<String>,
    pub parents: Vec<String>,
    /// Content hash for this version (SHA-256).
    pub content_hash: Option<String>,
}

/// The mathematical model of a file's versions.
pub struct FileVersionModel {
    pub current_version: Seq<Seq<char>>,
    pub parents: Seq<Seq<char>>,
    pub content_hash: Option<Seq<char>>,
}

impl View for FileVersion {
    type V = FileVersionModel;

    open spec fn view(&self) -> FileVersionModel {
        FileVersionModel {
            current_version: string_views(self.current_version@),
            parents: string_views(self.parents@),
            content_hash: match self.content_hash {
                Some(h) => Some(h@),
                None => None,
            },
        }
    }
}

/// A copy of a list of strings.
fn copy_strings(v: &Vec<String>) -> (r: Vec<String>)
    ensures
        string_views(r@) == string_views(v@),
{
    let mut r: Vec<String> = Vec::new();
    let mut i: usize = 0;
    while i < v.len()
        invariant
            i <= v@.len(),
            string_views(r@) == string_views(v@).subrange(0, i as int),
        decreases v@.len() - i,
    {
        let ghost before = r@;
        let x = String::from_str(v[i].as_str());
        r.push(x);
        proof {
            assert(r@ == before.push(x));
            assert(string_views(r@) =~= string_views(before).push(x@));
            assert(string_views(r@) =~= string_views(v@).subrange(0, i + 1));
        }
        i = i + 1;
    }
    proof {
        assert(string_views(v@).subrange(0, v@.len() as int) =~= string_views(v@));
    }
    r
}

impl FileVersion {
    /// An equal copy.
    pub fn duplicate(&self) -> (r: Self)
        ensures
            r@ == self@,
    {
        FileVersion {
            current_version: copy_strings(&self.current_version),
            parents: copy_strings(&self.parents),
            content_hash: match &self.content_hash {
                Some(h) => Some(String::from_str(h.as_str())),
                None => None,
            },
        }
    }
}

/// The versions known for each URL or path.
#[derive(Debug)]
pub struct VersionStore {
    /// Map URL/Path -> Version Info
    pub file_versions: StrMap<FileVersion>,
    /// Where the store is saved.
    pub path: String,
}

/// The models of the versions of each URL.
pub open spec fn store_view(m: Map<Seq<char>, FileVersion>) -> Map<Seq<char>, FileVersionModel> {
    m.map_values(|f: FileVersion| f@)
}

/// Whether a file's content hash is `hash`.
pub open spec fn has_hash(f: FileVersionModel, hash: Seq<char>) -> bool {
    f.content_hash == Some(hash)
}

impl VersionStore {
    /// Record the versions of a URL, without a content hash.
    pub fn update(&mut self, url: &str, version: Vec<String>, parents: Vec<String>)
        ensures
            store_view(final(self).file_versions@) == store_view(old(self).file_versions@).insert(url@, FileVersionModel {
                current_version: string_views(version@),
                parents: string_views(parents@),
                content_hash: None,
            }),
            final(self).path == old(self).path,
    {
        self.update_with_hash(url, version, parents, None);
    }

    /// Record the versions of a URL with its content hash.
    pub fn update_with_hash(&mut self, url: &str, version: Vec<String>, parents: Vec<String>, hash: Option<String>)
        ensures
            store_view(final(self).file_versions@) == store_view(old(self).file_versions@).insert(url@, FileVersionModel {
                current_version: string_views(version@),
                parents: string_views(parents@),
                content_hash: match hash {
                    Some(h) => Some(h@),
                    None => None,
                },
            }),
            final(self).path == old(self).path,
    {
        let fv = FileVersion { current_version: version, parents, content_hash: hash };
        let ghost m = fv@;
        self.file_versions.insert(String::from_str(url), fv);
        proof {
            assert(store_view(self.file_versions@) =~= store_view(old(self).file_versions@).insert(url@, m));
        }
    }

    /// The versions of a URL.
    pub fn get(&self, url: &str) -> (r: Option<&FileVersion>)
        ensures
            match r {
                Some(f) => self.file_versions@.contains_key(url@) && *f == self.file_versions@[url@],
                None => !self.file_versions@.contains_key(url@),
            },
    {
        self.file_versions.get(url)
    }

    /// The current version of the first entry, in the store's order, whose
    /// content hash is `hash`.
    pub fn get_version_by_hash(&self, _fullpath: &str, hash: &str) -> (r: Option<Vec<String>>)
        ensures
            match r {
                Some(v) => exists|i: int| 0 <= i < self.file_versions.key_order().len()
                    && has_hash(self.file_versions@[#[trigger] self.file_versions.key_order()[i]]@, hash@)
                    && (forall|j: int| 0 <= j < i ==> !has_hash(self.file_versions@[self.file_versions.key_order()[j]]@, hash@))
                    && string_views(v@) == self.file_versions@[self.file_versions.key_order()[i]]@.current_version,
                None => forall|k: Seq<char>| self.file_versions@.contains_key(k) ==> !has_hash(#[trigger] self.file_versions@[k]@, hash@),
            },
    {
        let n = self.file_versions.len();
        let mut i: usize = 0;
        while i < n
            invariant
                i <= n,
                n == self.file_versions.key_order().len(),
                forall|k: Seq<char>| self.file_versions@.contains_key(k) <==> self.file_versions.key_order().contains(k),
                forall|j: int| 0 <= j < i ==> !has_hash(self.file_versions@[#[trigger] self.file_versions.key_order()[j]]@, hash@),
            decreases n - i,
        {
            let fv = self.file_versions.value_at(i);
            let matches = match &fv.content_hash {
                Some(h) => crate::collections::str_eq(h.as_str(), hash),
                None => false,
            };
            if matches {
                return Some(copy_strings(&fv.current_version));
            }
            i = i + 1;
        }
        proof {
            assert forall|k: Seq<char>| self.file_versions@.contains_key(k) implies !has_hash(#[trigger] self.file_versions@[k]@, hash@) by {
                assert(self.file_versions.key_order().contains(k));
                let j = choose|j: int| 0 <= j < self.file_versions.key_order().len() && self.file_versions.key_order()[j] == k;
                assert(!has_hash(self.file_versions@[self.file_versions.key_order()[j]]@, hash@));
            }
        }
        None
    }

    /// Set the content hash of a URL that has versions; others are left alone.
    pub fn set_content_hash(&mut self, url: &str, hash: String)
        ensures
            old(self).file_versions@.contains_key(url@) ==> store_view(final(self).file_versions@)
                == store_view(old(self).file_versions@).insert(url@, FileVersionModel {
                    content_hash: Some(hash@),
                    ..old(self).file_versions@[url@]@
                }),
            !old(self).file_versions@.contains_key(url@) ==> final(self).file_versions == old(self).file_versions,
            final(self).path == old(self).path,
    {
        let updated = match self.file_versions.get(url) {
            Some(fv) => {
                let mut copy = fv.duplicate();
                copy.content_hash = Some(hash);
                Some(copy)
            },
            None => None,
        };
        if let Some(fv) = updated {
            let ghost m = fv@;
            self.file_versions.insert(String::from_str(url), fv);
            proof {
                assert(store_view(self.file_versions@) =~= store_view(old(self).file_versions@).insert(url@, m));
            }
        }
    }
}

/// A command for the daemon.
#[derive(Debug)]
pub enum Command {
    Sync { url: String },
    Unsync { url: String },
    SetCookie { domain: String, value: String },
    SetIdentity { domain: String, email: String },
    Mount { port: u16, mount_point: Option<String> },
    Unmount,
}

/// Parameters of a sync request.
#[derive(Debug)]
pub struct SyncParams {
    pub url: String,
}

/// Parameters of a push request.
#[derive(Debug)]
pub struct PushParams {
    pub url: String,
    pub content: String,
    pub content_type: Option<String>,
}

/// Parameters of a cookie request.
#[derive(Debug)]
pub struct CookieParams {
    pub domain: String,
    pub value: String,
}

/// Parameters of an identity request.
#[derive(Debug)]
pub struct IdentityParams {
    pub domain: String,
    pub email: String,
}

/// Parameters of a mount request.
#[derive(Debug)]
pub struct MountParams {
    pub port: Option<u16>,
    pub mount_point: Option<String>,
}

/// The state of the synchronisation of one binary file.
#[derive(Debug)]
pub struct BinarySyncState {
    /// The URL being synced.
    pub url: String,
    /// Peer ID for this sync.
    pub peer: String,
    /// Merge type (`aww` for binary files).
    pub merge_type: String,
    /// Last known file modification time (nanoseconds as text).
    pub file_mtime_ns_str: Option<String>,
    /// Whether the file is read-only.
    pub file_read_only: Option<bool>,
    /// Whether the sync was aborted.
    pub aborted: bool,
}

impl BinarySyncState {
    /// A fresh sync of `url` under a new random peer ID of twelve
    /// characters, with the `aww` merge type and nothing known of the file.
    pub fn new(url: String) -> (s: Self)
        ensures
            s.url == url,
            s.peer@.len() == 12,
            s.merge_type@ == seq!['a', 'w', 'w'],
            s.file_mtime_ns_str is None,
            s.file_read_only is None,
            !s.aborted,
    {
        proof {
            reveal_strlit("aww");
        }
        BinarySyncState {
            url,
            peer: random_peer_id(),
            merge_type: String::from_str("aww"),
            file_mtime_ns_str: None,
            file_read_only: None,
            aborted: false,
        }
    }
}

/// The delay of the first request for a URL, in milliseconds.
pub const FIRST_REQUEST_DELAY_MS: u64 = 10;

/// Sync requests waiting for their deadline, one per URL: the latest path
/// and the time at which the URL is due.
#[derive(Debug)]
pub struct DebounceQueue {
    /// The delay of a request for a URL already waiting, in milliseconds.
    pub debounce_ms: u64,
    /// For each URL waiting, its path and deadline.
    pub pending: StrMap<(String, u64)>,
}

/// The view of the waiting requests.
pub open spec fn pending_view(m: Map<Seq<char>, (String, u64)>) -> Map<Seq<char>, (Seq<char>, u64)> {
    m.map_values(|e: (String, u64)| (e.0@, e.1))
}

impl DebounceQueue {
    /// The waiting requests: for each URL its path and deadline.
    pub open spec fn waiting(&self) -> Map<Seq<char>, (Seq<char>, u64)> {
        pending_view(self.pending@)
    }

    /// An empty queue with the given delay for repeated requests.
    pub fn new(debounce_ms: u64) -> (q: Self)
        ensures
            q.debounce_ms == debounce_ms,
            q.waiting() == Map::<Seq<char>, (Seq<char>, u64)>::empty(),
    {
        let q = DebounceQueue { debounce_ms, pending: StrMap::new() };
        proof {
            assert(q.waiting() =~= Map::<Seq<char>, (Seq<char>, u64)>::empty());
        }
        q
    }

    /// A request to sync `url` from `path` at `now_ms`: a URL not waiting
    /// is due 10 ms later, a waiting one `debounce_ms` later; the path
    /// replaces the one waiting.
    pub fn request(&mut self, url: String, path: String, now_ms: u64)
        requires
            now_ms + FIRST_REQUEST_DELAY_MS <= u64::MAX,
            now_ms + old(self).debounce_ms <= u64::MAX,
        ensures
            final(self).debounce_ms == old(self).debounce_ms,
            final(self).waiting() == old(self).waiting().insert(url@, (path@,
                (if old(self).waiting().contains_key(url@) { now_ms + old(self).debounce_ms } else { now_ms + FIRST_REQUEST_DELAY_MS }) as u64)),
    {
        let deadline = if self.pending.contains_key(url.as_str()) {
            now_ms + self.debounce_ms
        } else {
            now_ms + FIRST_REQUEST_DELAY_MS
        };
        let ghost k = url@;
        let ghost pv = path@;
        self.pending.insert(url, (path, deadline));
        proof {
            assert(self.waiting() =~= old(self).waiting().insert(k, (pv, deadline)));
        }
    }

    /// The requests due at `now_ms` (deadline reached), each once as its
    /// URL and path, in no particular order; they leave the queue.
    pub fn take_due(&mut self, now_ms: u64) -> (due: Vec<(String, String)>)
        ensures
            final(self).debounce_ms == old(self).debounce_ms,
            forall|u: Seq<char>| #[trigger] final(self).waiting().contains_key(u) <==>
                (old(self).waiting().contains_key(u) && now_ms < old(self).waiting()[u].1),
            forall|u: Seq<char>| #[trigger] final(self).waiting().contains_key(u) ==> final(self).waiting()[u] == old(self).waiting()[u],
            forall|i: int| 0 <= i < due@.len() ==> old(self).waiting().contains_key((#[trigger] due@[i]).0@)
                && now_ms >= old(self).waiting()[due@[i].0@].1 && due@[i].1@ == old(self).waiting()[due@[i].0@].0,
            forall|u: Seq<char>| old(self).waiting().contains_key(u) && now_ms >= #[trigger] old(self).waiting()[u].1
                ==> exists|i: int| 0 <= i < due@.len() && due@[i].0@ == u,
            forall|i: int, j: int| 0 <= i < j < due@.len() ==> due@[i].0@ != due@[j].0@,
    {
        let ghost w0 = self.waiting();
        let n = self.pending.len();
        let keys = self.pending.keys();
        let ghost ko = self.pending.key_order();
        let mut due: Vec<(String, String)> = Vec::new();
        let mut kept: StrMap<(String, u64)> = StrMap::new();
        let mut i: usize = 0;
        while i < n
            invariant
                i <= n,
                n == ko.len(),
                ko == self.pending.key_order(),
                ko.no_duplicates(),
                forall|k: Seq<char>| self.pending@.contains_key(k) <==> ko.contains(k),
                string_views(keys@) == ko,
                w0 == self.waiting(),
                self.debounce_ms == old(self).debounce_ms,
                forall|u: Seq<char>| #[trigger] pending_view(kept@).contains_key(u) <==>
                    (ko.subrange(0, i as int).contains(u) && w0.contains_key(u) && now_ms < w0[u].1),
                forall|u: Seq<char>| #[trigger] pending_view(kept@).contains_key(u) ==> pending_view(kept@)[u] == w0[u],
                forall|t: int| 0 <= t < due@.len() ==> ko.subrange(0, i as int).contains((#[trigger] due@[t]).0@)
                    && w0.contains_key(due@[t].0@) && now_ms >= w0[due@[t].0@].1 && due@[t].1@ == w0[due@[t].0@].0,
                forall|u: Seq<char>| ko.subrange(0, i as int).contains(u) && w0.contains_key(u) && now_ms >= #[trigger] w0[u].1
                    ==> exists|t: int| 0 <= t < due@.len() && due@[t].0@ == u,
                forall|a: int, b: int| 0 <= a < b < due@.len() ==> due@[a].0@ != due@[b].0@,
            decreases n - i,
        {
            let k = keys[i].as_str();
            let ghost pre = ko.subrange(0, i as int);
            let ghost post = ko.subrange(0, i + 1);
            proof {
                assert(string_views(keys@)[i as int] == k@);
                assert(ko[i as int] == k@);
                assert(ko.contains(k@));
                assert(post =~= pre.push(k@));
                assert(!pre.contains(k@)) by {
                    if pre.contains(k@) {
                        let j = choose|j: int| 0 <= j < pre.len() && pre[j] == k@;
                        assert(ko[j] == ko[i as int]);
                    }
                }
                assert forall|u: Seq<char>| post.contains(u) <==> (pre.contains(u) || u == k@) by {
                    if post.contains(u) && u != k@ {
                        let j = choose|j: int| 0 <= j < post.len() && post[j] == u;
                        assert(pre[j] == u);
                    }
                    if pre.contains(u) {
                        let j = choose|j: int| 0 <= j < pre.len() && pre[j] == u;
                        assert(post[j] == u);
                    }
                    if u == k@ {
                        assert(post[i as int] == u);
                    }
                }
            }
            match self.pending.get(k) {
                Some(entry) => {
                    proof {
                        assert(w0.contains_key(k@));
                        assert(w0[k@] == (entry.0@, entry.1));
                    }
                    if now_ms >= entry.1 {
                        let ghost before = due@;
                        due.push((String::from_str(k), String::from_str(entry.0.as_str())));
                        proof {
                            assert forall|a: int, b: int| 0 <= a < b < due@.len() implies due@[a].0@ != due@[b].0@ by {
                                if b == due@.len() - 1 {
                                    assert(due@[a] == before[a]);
                                    assert(pre.contains(due@[a].0@));
                                }
                            }
                            assert forall|u: Seq<char>| post.contains(u) && w0.contains_key(u) && now_ms >= #[trigger] w0[u].1
                                implies exists|t: int| 0 <= t < due@.len() && due@[t].0@ == u by {
                                if u == k@ {
                                    assert(due@[due@.len() - 1].0@ == u);
                                } else {
                                    let t = choose|t: int| 0 <= t < before.len() && before[t].0@ == u;
                                    assert(due@[t] == before[t]);
                                }
                            }
                            assert forall|t: int| 0 <= t < due@.len() implies post.contains((#[trigger] due@[t]).0@)
                                && w0.contains_key(due@[t].0@) && now_ms >= w0[due@[t].0@].1 && due@[t].1@ == w0[due@[t].0@].0 by {
                                if t < before.len() {
                                    assert(due@[t] == before[t]);
                                }
                            }
                            assert forall|u: Seq<char>| #[trigger] pending_view(kept@).contains_key(u) <==>
                                (post.contains(u) && w0.contains_key(u) && now_ms < w0[u].1) by {}
                        }
                    } else {
                        let ghost kv = kept@;
                        kept.insert(String::from_str(k), (String::from_str(entry.0.as_str()), entry.1));
                        proof {
                            assert(pending_view(kept@) =~= pending_view(kv).insert(k@, (entry.0@, entry.1)));
                            assert forall|u: Seq<char>| post.contains(u) && w0.contains_key(u) && now_ms >= #[trigger] w0[u].1
                                implies exists|t: int| 0 <= t < due@.len() && due@[t].0@ == u by {
                                assert(u != k@);
                            }
                            assert forall|t: int| 0 <= t < due@.len() implies post.contains((#[trigger] due@[t]).0@)
                                && w0.contains_key(due@[t].0@) && now_ms >= w0[due@[t].0@].1 && due@[t].1@ == w0[due@[t].0@].0 by {
                            }
                        }
                    }
                },
                None => {
                    proof {
                        assert(false);
                    }
                },
            }
            i = i + 1;
        }
        proof {
            assert(ko.subrange(0, n as int) =~= ko);
            assert forall|u: Seq<char>| w0.contains_key(u) <==> ko.contains(u) by {
                assert(self.pending@.contains_key(u) == w0.contains_key(u));
            }
        }
        self.pending = kept;
        due
    }
}

} // verus!
