//! Small string-keyed collections with mathematical views.
//!
//! `StrMap<V>` is an association list whose keys never repeat; it is seen as a
//! `Map<Seq<char>, V>`.  `StrSet` is a list of distinct strings seen as a
//! `Set<Seq<char>>`.  Iteration follows insertion order.
use vstd::prelude::*;

verus! {

/// String equality on borrowed strings.
#[verifier::external_body]
pub(crate) fn str_eq(a: &str, b: &str) -> (r: bool)
    ensures
        r == (a@ == b@),
{
    a == b
}

/// The map described by a list of entries (a later entry wins).
pub open spec fn entries_to_map<V>(s: Seq<(String, V)>) -> Map<Seq<char>, V>
    decreases s.len(),
{
    if s.len() == 0 {
        Map::empty()
    } else {
        entries_to_map(s.drop_last()).insert(s.last().0@, s.last().1)
    }
}

/// The keys of a list of entries, as character sequences.
pub open spec fn entry_keys<V>(s: Seq<(String, V)>) -> Seq<Seq<char>> {
    s.map_values(|e: (String, V)| e.0@)
}

pub proof fn lemma_entries_dom<V>(s: Seq<(String, V)>, k: Seq<char>)
    ensures
        entries_to_map(s).dom().contains(k) <==> entry_keys(s).contains(k),
    decreases s.len(),
{
    if s.len() > 0 {
        lemma_entries_dom(s.drop_last(), k);
        let ks = entry_keys(s);
        let kd = entry_keys(s.drop_last());
        assert(kd =~= ks.drop_last());
        assert(ks[ks.len() - 1] == s.last().0@);
        if k == s.last().0@ {
            assert(ks.contains(k));
        }
        if ks.contains(k) {
            let i = choose|i: int| 0 <= i < ks.len() && ks[i] == k;
            if i < ks.len() - 1 {
                assert(kd[i] == k);
            }
        }
        if kd.contains(k) {
            let i = choose|i: int| 0 <= i < kd.len() && kd[i] == k;
            assert(ks[i] == k);
        }
    }
}

pub proof fn lemma_entries_value<V>(s: Seq<(String, V)>, i: int)
    requires
        0 <= i < s.len(),
        entry_keys(s).no_duplicates(),
    ensures
        entries_to_map(s).dom().contains(s[i].0@),
        entries_to_map(s)[s[i].0@] == s[i].1,
    decreases s.len(),
{
    if i < s.len() - 1 {
        let d = s.drop_last();
        assert(entry_keys(d) =~= entry_keys(s).drop_last());
        lemma_entries_value(d, i);
        assert(entry_keys(s)[i] != entry_keys(s)[s.len() - 1]);
    }
}

pub proof fn lemma_entries_finite<V>(s: Seq<(String, V)>)
    requires
        entry_keys(s).no_duplicates(),
    ensures
        entries_to_map(s).dom().finite(),
        entries_to_map(s).dom().len() == s.len(),
    decreases s.len(),
{
    if s.len() > 0 {
        let d = s.drop_last();
        assert(entry_keys(d) =~= entry_keys(s).drop_last());
        lemma_entries_finite(d);
        lemma_entries_dom(d, s.last().0@);
        if entry_keys(d).contains(s.last().0@) {
            let j = choose|j: int| 0 <= j < entry_keys(d).len() && entry_keys(d)[j] == s.last().0@;
            assert(entry_keys(s)[j] == entry_keys(s)[s.len() - 1]);
        }
    }
}

pub proof fn lemma_entries_remove<V>(s: Seq<(String, V)>, i: int)
    requires
        0 <= i < s.len(),
        entry_keys(s).no_duplicates(),
    ensures
        entries_to_map(s.remove(i)) == entries_to_map(s).remove(s[i].0@),
        entry_keys(s.remove(i)).no_duplicates(),
    decreases s.len(),
{
    let r = s.remove(i);
    assert(entry_keys(r) =~= entry_keys(s).remove(i));
    if i == s.len() - 1 {
        assert(r =~= s.drop_last());
        lemma_entries_dom(r, s[i].0@);
        if entry_keys(r).contains(s[i].0@) {
            let j = choose|j: int| 0 <= j < entry_keys(r).len() && entry_keys(r)[j] == s[i].0@;
            assert(entry_keys(s)[j] == entry_keys(s)[i]);
        }
        assert(entries_to_map(r) =~= entries_to_map(s).remove(s[i].0@));
    } else {
        let d = s.drop_last();
        assert(entry_keys(d) =~= entry_keys(s).drop_last());
        lemma_entries_remove(d, i);
        assert(r.drop_last() =~= d.remove(i));
        assert(r.last() == s.last());
        assert(entry_keys(s)[i] != entry_keys(s)[s.len() - 1]);
        assert(entries_to_map(r) =~= entries_to_map(s).remove(s[i].0@));
    }
}

pub proof fn lemma_entries_update<V>(s: Seq<(String, V)>, i: int, k: String, v: V)
    requires
        0 <= i < s.len(),
        k@ == s[i].0@,
        entry_keys(s).no_duplicates(),
    ensures
        entries_to_map(s.update(i, (k, v))) == entries_to_map(s).insert(s[i].0@, v),
        entry_keys(s.update(i, (k, v))) == entry_keys(s),
    decreases s.len(),
{
    let u = s.update(i, (k, v));
    assert(entry_keys(u) =~= entry_keys(s));
    if i == s.len() - 1 {
        assert(u.drop_last() =~= s.drop_last());
        assert(entries_to_map(u) =~= entries_to_map(s).insert(s[i].0@, v));
    } else {
        let d = s.drop_last();
        assert(entry_keys(d) =~= entry_keys(s).drop_last());
        lemma_entries_update(d, i, k, v);
        assert(u.drop_last() =~= d.update(i, (k, v)));
        assert(entry_keys(s)[i] != entry_keys(s)[s.len() - 1]);
        assert(entries_to_map(u) =~= entries_to_map(s).insert(s[i].0@, v));
    }
}

fn find_entry<V>(entries: &Vec<(String, V)>, k: &str) -> (r: Option<usize>)
    ensures
        match r {
            Some(i) => i < entries@.len() && entries@[i as int].0@ == k@,
            None => !entry_keys(entries@).contains(k@),
        },
{
    let mut i: usize = 0;
    while i < entries.len()
        invariant
            i <= entries@.len(),
            forall|j: int| 0 <= j < i ==> entries@[j].0@ != k@,
        decreases entries@.len() - i,
    {
        if str_eq(entries[i].0.as_str(), k) {
            return Some(i);
        }
        i = i + 1;
    }
    proof {
        if entry_keys(entries@).contains(k@) {
            let j = choose|j: int| 0 <= j < entry_keys(entries@).len() && entry_keys(entries@)[j] == k@;
            assert(entries@[j].0@ == k@);
        }
    }
    None
}

/// A map from strings to values, kept as a list of entries with distinct keys.
#[derive(Debug)]
pub struct StrMap<V> {
    entries: Vec<(String, V)>,
}

impl<V> View for StrMap<V> {
    type V = Map<Seq<char>, V>;

    closed spec fn view(&self) -> Map<Seq<char>, V> {
        entries_to_map(self.entries@)
    }
}

impl<V> StrMap<V> {
    #[verifier::type_invariant]
    closed spec fn keys_distinct(&self) -> bool {
        entry_keys(self.entries@).no_duplicates()
    }

    /// The keys in iteration order.
    pub closed spec fn key_order(&self) -> Seq<Seq<char>> {
        entry_keys(self.entries@)
    }

    /// An empty map.
    pub fn new() -> (m: Self)
        ensures
            m@ == Map::<Seq<char>, V>::empty(),
            m.key_order() == Seq::<Seq<char>>::empty(),
    {
        let m = StrMap { entries: Vec::new() };
        assert(entry_keys(m.entries@) =~= Seq::<Seq<char>>::empty());
        m
    }

    /// The number of entries.
    pub fn len(&self) -> (n: usize)
        ensures
            self@.dom().finite(),
            n == self@.dom().len(),
            n == self.key_order().len(),
            self.key_order().no_duplicates(),
            forall|k: Seq<char>| self@.contains_key(k) <==> self.key_order().contains(k),
    {
        proof {
            use_type_invariant(self);
            lemma_entries_finite(self.entries@);
            assert forall|k: Seq<char>| self@.contains_key(k) <==> self.key_order().contains(k) by {
                lemma_entries_dom(self.entries@, k);
            }
        }
        self.entries.len()
    }

    /// Whether the map has no entry.
    pub fn is_empty(&self) -> (b: bool)
        ensures
            b <==> self@ == Map::<Seq<char>, V>::empty(),
            b <==> self.key_order().len() == 0,
    {
        proof {
            use_type_invariant(self);
            lemma_entries_finite(self.entries@);
            if self.entries@.len() == 0 {
                assert(self@ =~= Map::<Seq<char>, V>::empty());
            } else {
                lemma_entries_value(self.entries@, 0);
            }
        }
        self.entries.len() == 0
    }

    fn find(&self, k: &str) -> (r: Option<usize>)
        ensures
            match r {
                Some(i) => i < self.entries@.len() && self.entries@[i as int].0@ == k@,
                None => !self.key_order().contains(k@),
            },
    {
        find_entry(&self.entries, k)
    }

    /// Whether `k` has an entry.
    pub fn contains_key(&self, k: &str) -> (b: bool)
        ensures
            b == self@.contains_key(k@),
    {
        proof {
            lemma_entries_dom(self.entries@, k@);
        }
        let r = self.find(k);
        proof {
            if let Some(i) = r {
                assert(self.key_order()[i as int] == k@);
            }
        }
        r.is_some()
    }

    /// The value stored under `k`.
    pub fn get(&self, k: &str) -> (r: Option<&V>)
        ensures
            match r {
                Some(v) => self@.contains_key(k@) && *v == self@[k@],
                None => !self@.contains_key(k@),
            },
    {
        proof {
            use_type_invariant(self);
            lemma_entries_dom(self.entries@, k@);
        }
        match self.find(k) {
            Some(i) => {
                proof {
                    lemma_entries_value(self.entries@, i as int);
                }
                Some(&self.entries[i].1)
            },
            None => None,
        }
    }

    /// The key stored at position `i` of the iteration order.
    pub fn key_at(&self, i: usize) -> (k: &String)
        requires
            i < self.key_order().len(),
        ensures
            k@ == self.key_order()[i as int],
            self@.contains_key(k@),
    {
        proof {
            lemma_entries_dom(self.entries@, self.entries@[i as int].0@);
            assert(entry_keys(self.entries@)[i as int] == self.entries@[i as int].0@);
        }
        &self.entries[i].0
    }

    /// The value stored at position `i` of the iteration order.
    pub fn value_at(&self, i: usize) -> (v: &V)
        requires
            i < self.key_order().len(),
        ensures
            *v == self@[self.key_order()[i as int]],
    {
        proof {
            use_type_invariant(self);
            lemma_entries_value(self.entries@, i as int);
        }
        &self.entries[i].1
    }

    /// Stores `v` under `k`, returning the value it replaces.
    pub fn insert(&mut self, k: String, v: V) -> (r: Option<V>)
        ensures
            final(self)@ == old(self)@.insert(k@, v),
            match r {
                Some(w) => old(self)@.contains_key(k@) && w == old(self)@[k@],
                None => !old(self)@.contains_key(k@),
            },
            old(self)@.contains_key(k@) ==> final(self).key_order() == old(self).key_order(),
            !old(self)@.contains_key(k@) ==> final(self).key_order() == old(self).key_order().push(k@),
    {
        proof {
            use_type_invariant(&*self);
            lemma_entries_dom(self.entries@, k@);
        }
        let mut entries = Vec::new();
        std::mem::swap(&mut entries, &mut self.entries);
        let ghost s = entries@;
        let found = find_entry(&entries, k.as_str());
        match found {
            Some(i) => {
                let old_entry = entries.remove(i);
                entries.insert(i, (k, v));
                proof {
                    assert(entries@ =~= s.update(i as int, (k, v)));
                    lemma_entries_update(s, i as int, k, v);
                    lemma_entries_value(s, i as int);
                }
                self.entries = entries;
                Some(old_entry.1)
            },
            None => {
                entries.push((k, v));
                proof {
                    lemma_entries_dom(s, k@);
                    assert(entries@.drop_last() =~= s);
                    assert(entry_keys(entries@) =~= entry_keys(s).push(k@));
                }
                self.entries = entries;
                None
            },
        }
    }
}


impl<V> StrMap<V> {
    /// Removes the entry of `k`, returning its value.
    pub fn remove(&mut self, k: &str) -> (r: Option<V>)
        ensures
            final(self)@ == old(self)@.remove(k@),
            match r {
                Some(w) => old(self)@.contains_key(k@) && w == old(self)@[k@],
                None => !old(self)@.contains_key(k@),
            },
    {
        proof {
            use_type_invariant(&*self);
            lemma_entries_dom(self.entries@, k@);
        }
        let mut entries = Vec::new();
        std::mem::swap(&mut entries, &mut self.entries);
        let ghost s = entries@;
        match find_entry(&entries, k) {
            Some(i) => {
                let e = entries.remove(i);
                proof {
                    lemma_entries_remove(s, i as int);
                    lemma_entries_value(s, i as int);
                }
                self.entries = entries;
                Some(e.1)
            },
            None => {
                proof {
                    assert(entries_to_map(s) =~= entries_to_map(s).remove(k@));
                }
                self.entries = entries;
                None
            },
        }
    }

    /// The keys, in iteration order.
    pub fn keys(&self) -> (r: Vec<String>)
        ensures
            string_views(r@) == self.key_order(),
    {
        let mut r: Vec<String> = Vec::new();
        let mut i: usize = 0;
        while i < self.entries.len()
            invariant
                i <= self.entries@.len(),
                string_views(r@) == entry_keys(self.entries@).take(i as int),
            decreases self.entries@.len() - i,
        {
            let k = self.entries[i].0.clone();
            let ghost before = r@;
            r.push(k);
            proof {
                assert(r@ == before.push(self.entries@[i as int].0));
                assert(string_views(r@) =~= string_views(before).push(self.entries@[i as int].0@));
                assert(entry_keys(self.entries@).take(i + 1) =~= entry_keys(self.entries@).take(i as int).push(self.entries@[i as int].0@));
                assert(string_views(r@) =~= entry_keys(self.entries@).take(i + 1));
            }
            i = i + 1;
        }
        proof {
            assert(entry_keys(self.entries@).take(i as int) =~= entry_keys(self.entries@));
        }
        r
    }
}

impl<V: Copy> StrMap<V> {
    /// A copy of the map with the same iteration order.
    pub fn copy(&self) -> (r: Self)
        ensures
            r@ == self@,
            r.key_order() == self.key_order(),
    {
        proof {
            use_type_invariant(self);
        }
        let mut out: Vec<(String, V)> = Vec::new();
        let mut i: usize = 0;
        while i < self.entries.len()
            invariant
                i <= self.entries@.len(),
                out@.len() == i,
                forall|j: int| 0 <= j < i ==> out@[j].0@ == self.entries@[j].0@ && out@[j].1 == self.entries@[j].1,
            decreases self.entries@.len() - i,
        {
            let k = self.entries[i].0.clone();
            let v = self.entries[i].1;
            out.push((k, v));
            i = i + 1;
        }
        proof {
            assert(entry_keys(out@) =~= entry_keys(self.entries@));
            lemma_same_entries(out@, self.entries@);
        }
        StrMap { entries: out }
    }
}

proof fn lemma_same_entries<V>(a: Seq<(String, V)>, b: Seq<(String, V)>)
    requires
        a.len() == b.len(),
        forall|j: int| 0 <= j < a.len() ==> a[j].0@ == b[j].0@ && a[j].1 == b[j].1,
    ensures
        entries_to_map(a) == entries_to_map(b),
    decreases a.len(),
{
    if a.len() > 0 {
        lemma_same_entries(a.drop_last(), b.drop_last());
    }
}

/// A set of strings, kept as a list of distinct entries.
#[derive(Debug)]
pub struct StrSet {
    items: Vec<String>,
}

/// The views of a list of strings.
pub open spec fn string_views(s: Seq<String>) -> Seq<Seq<char>> {
    s.map_values(|x: String| x@)
}

impl View for StrSet {
    type V = Set<Seq<char>>;

    closed spec fn view(&self) -> Set<Seq<char>> {
        string_views(self.items@).to_set()
    }
}

impl StrSet {
    #[verifier::type_invariant]
    closed spec fn items_distinct(&self) -> bool {
        string_views(self.items@).no_duplicates()
    }

    /// The members in iteration order.
    pub closed spec fn member_order(&self) -> Seq<Seq<char>> {
        string_views(self.items@)
    }

    /// An empty set.
    pub fn new() -> (s: Self)
        ensures
            s@ == Set::<Seq<char>>::empty(),
            s.member_order() == Seq::<Seq<char>>::empty(),
    {
        let s = StrSet { items: Vec::new() };
        assert(string_views(s.items@) =~= Seq::<Seq<char>>::empty());
        assert(s@ =~= Set::<Seq<char>>::empty());
        s
    }

    fn find(&self, k: &str) -> (r: Option<usize>)
        ensures
            match r {
                Some(i) => i < self.items@.len() && self.items@[i as int]@ == k@,
                None => !self@.contains(k@),
            },
    {
        let mut i: usize = 0;
        while i < self.items.len()
            invariant
                i <= self.items@.len(),
                forall|j: int| 0 <= j < i ==> self.items@[j]@ != k@,
            decreases self.items@.len() - i,
        {
            if str_eq(self.items[i].as_str(), k) {
                return Some(i);
            }
            i = i + 1;
        }
        proof {
            if self@.contains(k@) {
                let j = choose|j: int| 0 <= j < self.member_order().len() && self.member_order()[j] == k@;
                assert(self.items@[j]@ == k@);
            }
        }
        None
    }

    /// The number of members.
    pub fn len(&self) -> (n: usize)
        ensures
            self@.finite(),
            n == self@.len(),
            n == self.member_order().len(),
            self.member_order().no_duplicates(),
            forall|k: Seq<char>| self@.contains(k) <==> self.member_order().contains(k),
    {
        proof {
            use_type_invariant(self);
            string_views(self.items@).unique_seq_to_set();
        }
        self.items.len()
    }

    /// The members are those listed in iteration order.
    pub proof fn lemma_member_order(&self)
        ensures
            forall|k: Seq<char>| self@.contains(k) <==> self.member_order().contains(k),
    {
        assert forall|k: Seq<char>| self@.contains(k) <==> self.member_order().contains(k) by {
            if self.member_order().contains(k) {
                let i = choose|i: int| 0 <= i < self.member_order().len() && self.member_order()[i] == k;
                assert(string_views(self.items@).to_set().contains(string_views(self.items@)[i]));
            }
        }
    }

    /// Whether the set is empty.
    pub fn is_empty(&self) -> (b: bool)
        ensures
            b <==> self@ == Set::<Seq<char>>::empty(),
    {
        proof {
            if self.items@.len() == 0 {
                assert(self@ =~= Set::<Seq<char>>::empty());
            } else {
                assert(self.member_order()[0] == self.items@[0]@);
                assert(self@.contains(self.items@[0]@));
            }
        }
        self.items.len() == 0
    }

    /// Whether `k` is a member.
    pub fn contains(&self, k: &str) -> (b: bool)
        ensures
            b == self@.contains(k@),
    {
        let r = self.find(k);
        proof {
            if let Some(i) = r {
                assert(self.member_order()[i as int] == k@);
            }
        }
        r.is_some()
    }

    /// The member at position `i` of the iteration order.
    pub fn item_at(&self, i: usize) -> (k: &String)
        requires
            i < self.member_order().len(),
        ensures
            k@ == self.member_order()[i as int],
            self@.contains(k@),
    {
        proof {
            assert(self.member_order()[i as int] == self.items@[i as int]@);
        }
        &self.items[i]
    }

    /// Adds `k`; returns whether it was new.
    pub fn insert(&mut self, k: String) -> (b: bool)
        ensures
            final(self)@ == old(self)@.insert(k@),
            b == !old(self)@.contains(k@),
            old(self)@.contains(k@) ==> final(self).member_order() == old(self).member_order(),
            !old(self)@.contains(k@) ==> final(self).member_order() == old(self).member_order().push(k@),
    {
        proof {
            use_type_invariant(&*self);
        }
        match self.find(k.as_str()) {
            Some(i) => {
                proof {
                    assert(self.member_order()[i as int] == k@);
                    assert(self@ =~= self@.insert(k@));
                }
                false
            },
            None => {
                let mut items = Vec::new();
                std::mem::swap(&mut items, &mut self.items);
                let ghost s = items@;
                items.push(k);
                proof {
                    assert(string_views(items@) =~= string_views(s).push(k@));
                    broadcast use vstd::seq_lib::group_seq_properties;
                    assert(string_views(items@).to_set() =~= string_views(s).to_set().insert(k@));
                }
                self.items = items;
                true
            },
        }
    }

    /// Removes `k`; returns whether it was a member.
    pub fn remove(&mut self, k: &str) -> (b: bool)
        ensures
            final(self)@ == old(self)@.remove(k@),
            b == old(self)@.contains(k@),
    {
        proof {
            use_type_invariant(&*self);
        }
        match self.find(k) {
            Some(i) => {
                let mut items = Vec::new();
                std::mem::swap(&mut items, &mut self.items);
                let ghost s = items@;
                let _ = items.remove(i);
                proof {
                    let sv = string_views(s);
                    assert(sv[i as int] == k@);
                    assert(string_views(items@) =~= sv.remove(i as int));
                    assert forall|x: Seq<char>| string_views(items@).to_set().contains(x)
                        <==> sv.to_set().remove(k@).contains(x) by {
                        if string_views(items@).contains(x) {
                            let j = choose|j: int| 0 <= j < string_views(items@).len() && string_views(items@)[j] == x;
                            if j < i {
                                assert(sv[j] == x);
                            } else {
                                assert(sv[j + 1] == x);
                            }
                            assert(sv.contains(x));
                            assert(x != k@);
                        }
                        if sv.contains(x) && x != k@ {
                            let j = choose|j: int| 0 <= j < sv.len() && sv[j] == x;
                            assert(j != i);
                            if j < i {
                                assert(string_views(items@)[j] == x);
                            } else {
                                assert(string_views(items@)[j - 1] == x);
                            }
                            assert(string_views(items@).contains(x));
                        }
                    }
                    assert(string_views(items@).to_set() =~= sv.to_set().remove(k@));
                }
                self.items = items;
                true
            },
            None => {
                proof {
                    assert(self@ =~= self@.remove(k@));
                }
                false
            },
        }
    }

    /// The members, in iteration order.
    pub fn to_vec(&self) -> (r: Vec<String>)
        ensures
            string_views(r@) == self.member_order(),
    {
        let mut r: Vec<String> = Vec::new();
        let mut i: usize = 0;
        while i < self.items.len()
            invariant
                i <= self.items@.len(),
                string_views(r@) == string_views(self.items@).take(i as int),
            decreases self.items@.len() - i,
        {
            let ghost before = r@;
            r.push(self.items[i].clone());
            proof {
                assert(string_views(r@) =~= string_views(before).push(self.items@[i as int]@));
                assert(string_views(self.items@).take(i + 1) =~= string_views(self.items@).take(i as int).push(self.items@[i as int]@));
                assert(string_views(r@) =~= string_views(self.items@).take(i + 1));
            }
            i = i + 1;
        }
        proof {
            assert(string_views(self.items@).take(i as int) =~= string_views(self.items@));
        }
        r
    }
}

impl StrSet {
    /// An equal copy of the set with the same iteration order.
    pub fn copy(&self) -> (r: Self)
        ensures
            r@ == self@,
            r.member_order() == self.member_order(),
    {
        proof {
            use_type_invariant(self);
        }
        let items = self.to_vec();
        StrSet { items }
    }
}

} // verus!
