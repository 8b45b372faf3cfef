use vstd::prelude::*;
use vstd::utf8::{decode_utf8, encode_utf8, encode_utf8_decode_utf8};
use crate::model::{Issue, IssueKey, PullRequest};

verus! {

/// A key as plain values: the repository's characters and the issue number.
pub open spec fn key_view(key: IssueKey) -> (Seq<char>, u64) {
    (key.repo@, key.number)
}

/// What a list of entries stores: each key bound to its issue, a later entry replacing an
/// earlier one with the same key.
pub open spec fn entries_map(entries: Seq<(IssueKey, Issue)>) -> Map<(Seq<char>, u64), Issue>
    decreases entries.len(),
{
    if entries.len() == 0 {
        Map::empty()
    } else {
        entries_map(entries.drop_last()).insert(key_view(entries.last().0), entries.last().1)
    }
}

pub open spec fn distinct_keys(entries: Seq<(IssueKey, Issue)>) -> bool {
    forall|i: int, j: int|
        0 <= i < j < entries.len() ==> key_view(#[trigger] entries[i].0) != key_view(#[trigger] entries[j].0)
}

/// Byte-wise lexicographic order, the order of `String`.
pub open spec fn bytes_less(a: Seq<u8>, b: Seq<u8>) -> bool
    decreases a.len(),
{
    if a.len() == 0 {
        b.len() > 0
    } else if b.len() == 0 {
        false
    } else if a[0] != b[0] {
        a[0] < b[0]
    } else {
        bytes_less(a.drop_first(), b.drop_first())
    }
}

/// The order of keys: by repository name as `String` orders it, then by number.
pub open spec fn key_less(a: (Seq<char>, u64), b: (Seq<char>, u64)) -> bool {
    ||| bytes_less(encode_utf8(a.0), encode_utf8(b.0))
    ||| (encode_utf8(a.0) == encode_utf8(b.0) && a.1 < b.1)
}

pub open spec fn sorted_by_key(entries: Seq<(IssueKey, Issue)>) -> bool {
    forall|i: int, j: int|
        0 <= i < j < entries.len() ==> !key_less(key_view(#[trigger] entries[j].0), key_view(#[trigger] entries[i].0))
}

/// The stored issues, each under its key. Keys are unique.
pub struct IssueDatabase {
    entries: Vec<(IssueKey, Issue)>,
}

impl IssueDatabase {
    #[verifier::type_invariant]
    spec fn wf(self) -> bool {
        distinct_keys(self.entries@)
    }

    pub closed spec fn view(&self) -> Map<(Seq<char>, u64), Issue> {
        entries_map(self.entries@)
    }
}

proof fn lemma_entries_map_index(entries: Seq<(IssueKey, Issue)>, i: int)
    requires
        distinct_keys(entries),
        0 <= i < entries.len(),
    ensures
        entries_map(entries).contains_key(key_view(entries[i].0)),
        entries_map(entries)[key_view(entries[i].0)] == entries[i].1,
    decreases entries.len(),
{
    if i < entries.len() - 1 {
        lemma_entries_map_index(entries.drop_last(), i);
    }
}

proof fn lemma_entries_map_dom(entries: Seq<(IssueKey, Issue)>, k: (Seq<char>, u64))
    ensures
        entries_map(entries).contains_key(k) <==> exists|i: int| 0 <= i < entries.len() && key_view(#[trigger] entries[i].0) == k,
    decreases entries.len(),
{
    if entries.len() > 0 {
        lemma_entries_map_dom(entries.drop_last(), k);
        if entries_map(entries.drop_last()).contains_key(k) {
            let i = choose|i: int| 0 <= i < entries.len() - 1 && key_view(#[trigger] entries.drop_last()[i].0) == k;
            assert(key_view(entries[i].0) == k);
        }
        if exists|i: int| 0 <= i < entries.len() && key_view(#[trigger] entries[i].0) == k {
            let i = choose|i: int| 0 <= i < entries.len() && key_view(#[trigger] entries[i].0) == k;
            if i < entries.len() - 1 {
                assert(key_view(entries.drop_last()[i].0) == k);
            }
        }
    }
}

/// Two lists with the same distinct keys bound to the same issues store the same map.
proof fn lemma_entries_map_ext(a: Seq<(IssueKey, Issue)>, m: Map<(Seq<char>, u64), Issue>)
    requires
        distinct_keys(a),
        forall|k: (Seq<char>, u64)| m.contains_key(k) <==> exists|i: int| 0 <= i < a.len() && key_view(#[trigger] a[i].0) == k,
        forall|i: int| 0 <= i < a.len() ==> m[key_view(#[trigger] a[i].0)] == a[i].1,
    ensures
        entries_map(a) == m,
{
    assert forall|k: (Seq<char>, u64)| entries_map(a).contains_key(k) <==> m.contains_key(k) by {
        lemma_entries_map_dom(a, k);
    }
    assert forall|k: (Seq<char>, u64)| entries_map(a).contains_key(k) implies entries_map(a)[k] == m[k] by {
        lemma_entries_map_dom(a, k);
        let i = choose|i: int| 0 <= i < a.len() && key_view(#[trigger] a[i].0) == k;
        lemma_entries_map_index(a, i);
    }
    assert(entries_map(a) =~= m);
}

proof fn lemma_bytes_less_asym(a: Seq<u8>, b: Seq<u8>)
    ensures
        !(bytes_less(a, b) && bytes_less(b, a)),
    decreases a.len(),
{
    if a.len() > 0 && b.len() > 0 && a[0] == b[0] {
        lemma_bytes_less_asym(a.drop_first(), b.drop_first());
    }
}

proof fn lemma_bytes_less_trans(a: Seq<u8>, b: Seq<u8>, c: Seq<u8>)
    requires
        bytes_less(a, b),
        bytes_less(b, c),
    ensures
        bytes_less(a, c),
    decreases a.len(),
{
    if a.len() > 0 && b.len() > 0 && c.len() > 0 && a[0] == b[0] && b[0] == c[0] {
        lemma_bytes_less_trans(a.drop_first(), b.drop_first(), c.drop_first());
    }
}

proof fn lemma_bytes_less_total(a: Seq<u8>, b: Seq<u8>)
    requires
        !bytes_less(a, b),
        !bytes_less(b, a),
    ensures
        a == b,
    decreases a.len(),
{
    if a.len() > 0 && b.len() > 0 {
        lemma_bytes_less_total(a.drop_first(), b.drop_first());
        assert(a =~= seq![a[0]] + a.drop_first());
        assert(b =~= seq![b[0]] + b.drop_first());
    } else {
        assert(a.len() == 0 && b.len() == 0);
        assert(a =~= b);
    }
}

pub proof fn lemma_key_less_asym(a: (Seq<char>, u64), b: (Seq<char>, u64))
    ensures
        !(key_less(a, b) && key_less(b, a)),
{
    lemma_bytes_less_asym(encode_utf8(a.0), encode_utf8(b.0));
    if encode_utf8(a.0) == encode_utf8(b.0) {
        lemma_bytes_less_asym(encode_utf8(a.0), encode_utf8(a.0));
    }
}

pub proof fn lemma_key_less_trans(a: (Seq<char>, u64), b: (Seq<char>, u64), c: (Seq<char>, u64))
    requires
        key_less(a, b),
        key_less(b, c),
    ensures
        key_less(a, c),
{
    let (ea, eb, ec) = (encode_utf8(a.0), encode_utf8(b.0), encode_utf8(c.0));
    if bytes_less(ea, eb) && bytes_less(eb, ec) {
        lemma_bytes_less_trans(ea, eb, ec);
    }
}

/// `a < b` in byte-wise lexicographic order.
fn bytes_less_exec(a: &[u8], b: &[u8]) -> (r: bool)
    ensures
        r == bytes_less(a@, b@),
{
    let mut i: usize = 0;
    assert(a@.skip(0) == a@);
    assert(b@.skip(0) == b@);
    while i < a.len() && i < b.len()
        invariant
            i <= a@.len(),
            i <= b@.len(),
            bytes_less(a@, b@) == bytes_less(a@.skip(i as int), b@.skip(i as int)),
        decreases a@.len() - i,
    {
        if a[i] != b[i] {
            return a[i] < b[i];
        }
        assert(a@.skip(i as int).drop_first() == a@.skip(i + 1));
        assert(b@.skip(i as int).drop_first() == b@.skip(i + 1));
        i = i + 1;
    }
    i == a.len() && i < b.len()
}

/// Whether key `a` comes before key `b`.
fn key_less_exec(a: &IssueKey, b: &IssueKey) -> (r: bool)
    ensures
        r == key_less(key_view(*a), key_view(*b)),
{
    let ab = a.repo.as_str().as_bytes();
    let bb = b.repo.as_str().as_bytes();
    if bytes_less_exec(ab, bb) {
        true
    } else if bytes_less_exec(bb, ab) {
        false
    } else {
        proof {
            lemma_bytes_less_total(ab@, bb@);
        }
        a.number < b.number
    }
}

/// Whether two keys are the same.
fn key_eq(a: &IssueKey, b: &IssueKey) -> (r: bool)
    ensures
        r == (key_view(*a) == key_view(*b)),
{
    a.number == b.number && a.repo == b.repo
}

impl IssueDatabase {
    /// An empty database.
    pub fn new() -> (db: Self)
        ensures
            db@ == Map::<(Seq<char>, u64), Issue>::empty(),
    {
        IssueDatabase { entries: Vec::new() }
    }

    /// How many issues are stored.
    pub fn len(&self) -> (n: usize)
        ensures
            n == self@.len(),
    {
        proof {
            use_type_invariant(self);
            lemma_entries_map_len(self.entries@);
        }
        self.entries.len()
    }

    /// Whether an issue is stored under the key.
    pub fn contains_key(&self, key: &IssueKey) -> (r: bool)
        ensures
            r == self@.contains_key(key_view(*key)),
    {
        proof {
            use_type_invariant(self);
            lemma_entries_map_dom(self.entries@, key_view(*key));
        }
        find_entry(&self.entries, key).is_some()
    }

    /// The issue stored under the key.
    pub fn get(&self, key: &IssueKey) -> (r: Option<&Issue>)
        ensures
            match r {
                Some(issue) => self@.contains_key(key_view(*key)) && *issue == self@[key_view(*key)],
                None => !self@.contains_key(key_view(*key)),
            },
    {
        proof {
            use_type_invariant(self);
            lemma_entries_map_dom(self.entries@, key_view(*key));
        }
        match find_entry(&self.entries, key) {
            Some(i) => {
                proof {
                    lemma_entries_map_index(self.entries@, i as int);
                }
                Some(&self.entries[i].1)
            },
            None => None,
        }
    }
}

proof fn lemma_entries_map_len(entries: Seq<(IssueKey, Issue)>)
    requires
        distinct_keys(entries),
    ensures
        entries_map(entries).len() == entries.len(),
        entries_map(entries).dom().finite(),
    decreases entries.len(),
{
    if entries.len() > 0 {
        let last = entries.len() - 1;
        lemma_entries_map_len(entries.drop_last());
        lemma_entries_map_dom(entries.drop_last(), key_view(entries[last].0));
        if entries_map(entries.drop_last()).contains_key(key_view(entries[last].0)) {
            let i = choose|i: int| 0 <= i < entries.len() - 1 && key_view(#[trigger] entries.drop_last()[i].0) == key_view(entries[last].0);
            assert(key_view(entries[i].0) == key_view(entries[last].0));
        }
    }
}

/// An issue with its pull-request part set.
pub open spec fn with_pull_request(issue: Issue, pr: PullRequest) -> Issue {
    Issue {
        repo: issue.repo,
        author: issue.author,
        number: issue.number,
        title: issue.title,
        created_at: issue.created_at,
        closed_at: issue.closed_at,
        closed_reason: issue.closed_reason,
        pr: Some(pr),
    }
}

/// Where a key stands in a list of entries, if it does.
fn find_entry(entries: &Vec<(IssueKey, Issue)>, key: &IssueKey) -> (r: Option<usize>)
    ensures
        match r {
            Some(i) => i < entries@.len() && key_view(entries@[i as int].0) == key_view(*key),
            None => forall|i: int| 0 <= i < entries@.len() ==> key_view(#[trigger] entries@[i].0) != key_view(*key),
        },
{
    let mut i: usize = 0;
    while i < entries.len()
        invariant
            i <= entries@.len(),
            forall|j: int| 0 <= j < i ==> key_view(#[trigger] entries@[j].0) != key_view(*key),
        decreases entries@.len() - i,
    {
        if key_eq(&entries[i].0, key) {
            return Some(i);
        }
        i = i + 1;
    }
    None
}

/// Stores an issue under a key in a list with distinct keys, replacing what was stored there.
fn put_entry(entries: &mut Vec<(IssueKey, Issue)>, key: IssueKey, issue: Issue)
    requires
        distinct_keys(old(entries)@),
    ensures
        distinct_keys(final(entries)@),
        entries_map(final(entries)@) == entries_map(old(entries)@).insert(key_view(key), issue),
{
    let ghost k = key_view(key);
    let ghost m = entries_map(old(entries)@).insert(k, issue);
    let ghost before = entries@;
    match find_entry(entries, &key) {
        Some(i) => {
            entries.set(i, (key, issue));
            proof {
                assert forall|q: (Seq<char>, u64)| m.contains_key(q) <==> exists|x: int| 0 <= x < entries@.len() && key_view(#[trigger] entries@[x].0) == q by {
                    lemma_entries_map_dom(before, q);
                    if exists|x: int| 0 <= x < before.len() && key_view(#[trigger] before[x].0) == q {
                        let x = choose|x: int| 0 <= x < before.len() && key_view(#[trigger] before[x].0) == q;
                        assert(key_view(entries@[x].0) == q);
                    }
                    if exists|x: int| 0 <= x < entries@.len() && key_view(#[trigger] entries@[x].0) == q {
                        let x = choose|x: int| 0 <= x < entries@.len() && key_view(#[trigger] entries@[x].0) == q;
                        if x != i {
                            assert(key_view(before[x].0) == q);
                        }
                    }
                }
                assert forall|x: int| 0 <= x < entries@.len() implies m[key_view(#[trigger] entries@[x].0)] == entries@[x].1 by {
                    if x != i {
                        lemma_entries_map_index(before, x);
                    }
                }
                lemma_entries_map_ext(entries@, m);
            }
        },
        None => {
            entries.push((key, issue));
            proof {
                assert(entries@.drop_last() == before);
            }
        },
    }
}

impl IssueDatabase {
    /// Stores an issue under a key, replacing what was stored there.
    pub fn insert(&mut self, key: IssueKey, issue: Issue)
        ensures
            final(self)@ == old(self)@.insert(key_view(key), issue),
    {
        proof {
            use_type_invariant(&*self);
        }
        let mut entries: Vec<(IssueKey, Issue)> = Vec::new();
        std::mem::swap(&mut entries, &mut self.entries);
        put_entry(&mut entries, key, issue);
        self.entries = entries;
    }

    /// Sets the pull-request part of a stored issue.
    pub fn attach_pull_request(&mut self, key: &IssueKey, pr: PullRequest)
        requires
            old(self)@.contains_key(key_view(*key)),
        ensures
            final(self)@ == old(self)@.insert(key_view(*key), with_pull_request(old(self)@[key_view(*key)], pr)),
    {
        proof {
            use_type_invariant(&*self);
            lemma_entries_map_dom(self.entries@, key_view(*key));
        }
        let mut entries: Vec<(IssueKey, Issue)> = Vec::new();
        std::mem::swap(&mut entries, &mut self.entries);
        let ghost before = entries@;
        match find_entry(&entries, key) {
            Some(i) => {
                let (k, mut issue) = entries.remove(i);
                proof {
                    lemma_entries_map_index(before, i as int);
                }
                issue.pr = Some(pr);
                put_entry(&mut entries, k, issue);
                proof {
                    assert forall|q: (Seq<char>, u64)| entries_map(entries@).contains_key(q) <==> entries_map(before).insert(key_view(*key), with_pull_request(entries_map(before)[key_view(*key)], pr)).contains_key(q) by {
                        lemma_entries_map_dom(before, q);
                        lemma_entries_map_dom(before.remove(i as int), q);
                        if exists|x: int| 0 <= x < before.len() && key_view(#[trigger] before[x].0) == q {
                            let x = choose|x: int| 0 <= x < before.len() && key_view(#[trigger] before[x].0) == q;
                            if x < i {
                                assert(key_view(before.remove(i as int)[x].0) == q);
                            } else if x > i {
                                assert(key_view(before.remove(i as int)[x - 1].0) == q);
                            }
                        }
                    }
                    assert forall|q: (Seq<char>, u64)| #[trigger] entries_map(entries@).contains_key(q) && q != key_view(*key) implies entries_map(entries@)[q] == entries_map(before)[q] by {
                        lemma_entries_map_dom(before.remove(i as int), q);
                        let x = choose|x: int| 0 <= x < before.remove(i as int).len() && key_view(#[trigger] before.remove(i as int)[x].0) == q;
                        lemma_entries_map_index(before.remove(i as int), x);
                        if x < i {
                            lemma_entries_map_index(before, x);
                        } else {
                            lemma_entries_map_index(before, x + 1);
                        }
                    }
                    assert(entries_map(entries@) =~= entries_map(before).insert(key_view(*key), with_pull_request(entries_map(before)[key_view(*key)], pr)));
                }
            },
            None => {
                assert(false);
            },
        }
        self.entries = entries;
    }
}

/// Puts an entry into a list sorted by key, before the first entry whose key is greater.
fn insert_sorted(sorted: &mut Vec<(IssueKey, Issue)>, entry: (IssueKey, Issue))
    requires
        sorted_by_key(old(sorted)@),
    ensures
        sorted_by_key(final(sorted)@),
        exists|p: int| 0 <= p <= old(sorted)@.len() && final(sorted)@ == old(sorted)@.insert(p, entry),
{
    let mut p: usize = 0;
    while p < sorted.len() && !key_less_exec(&entry.0, &sorted[p].0)
        invariant
            p <= sorted@.len(),
            forall|q: int| 0 <= q < p ==> !key_less(key_view(entry.0), key_view(#[trigger] sorted@[q].0)),
        decreases sorted@.len() - p,
    {
        p = p + 1;
    }
    let ghost before = sorted@;
    sorted.insert(p, entry);
    proof {
        let x = key_view(entry.0);
        assert forall|i: int, j: int| 0 <= i < j < sorted@.len() implies !key_less(key_view(#[trigger] sorted@[j].0), key_view(#[trigger] sorted@[i].0)) by {
            if j < p {
                assert(sorted@[i] == before[i] && sorted@[j] == before[j]);
            } else if j == p {
                assert(sorted@[i] == before[i]);
            } else if i == p {
                let r = key_view(before[j - 1].0);
                assert(sorted@[j] == before[j - 1]);
                assert(key_less(x, key_view(before[p as int].0)));
                if key_less(r, x) {
                    lemma_key_less_trans(r, x, key_view(before[p as int].0));
                    if j - 1 == p {
                        lemma_key_less_asym(r, r);
                    }
                }
            } else if i < p {
                assert(sorted@[i] == before[i] && sorted@[j] == before[j - 1]);
            } else {
                assert(sorted@[i] == before[i - 1] && sorted@[j] == before[j - 1]);
            }
        }
    }
}

impl IssueDatabase {
    /// The database of a list of entries: each key bound to its issue, a later entry replacing
    /// an earlier one with the same key.
    pub fn from_serialized(entries: Vec<(IssueKey, Issue)>) -> (db: Self)
        ensures
            db@ == entries_map(entries@),
    {
        let ghost all = entries@;
        let mut list: Vec<(IssueKey, Issue)> = Vec::new();
        for entry in it: entries
            invariant
                it.seq() == all,
                distinct_keys(list@),
                entries_map(list@) == entries_map(all.take(it.index() as int)),
        {
            let ghost i = it.index() as int;
            put_entry(&mut list, entry.0, entry.1);
            proof {
                assert(all.take(i + 1).drop_last() == all.take(i));
            }
        }
        proof {
            assert(all.take(all.len() as int) == all);
        }
        IssueDatabase { entries: list }
    }

    /// The stored entries, ordered by key: by repository name as `String` orders it, then by
    /// number. Each key appears once.
    pub fn into_serialized(self) -> (entries: Vec<(IssueKey, Issue)>)
        ensures
            sorted_by_key(entries@),
            distinct_keys(entries@),
            entries_map(entries@) == self@,
    {
        proof {
            use_type_invariant(&self);
        }
        let ghost m = self@;
        let IssueDatabase { entries: stored } = self;
        let ghost all = stored@;
        let mut sorted: Vec<(IssueKey, Issue)> = Vec::new();
        for entry in it: stored
            invariant
                it.seq() == all,
                distinct_keys(all),
                m == entries_map(all),
                sorted_by_key(sorted@),
                distinct_keys(sorted@),
                entries_map(sorted@) == entries_map(all.take(it.index() as int)),
        {
            let ghost i = it.index() as int;
            let ghost before = sorted@;
            insert_sorted(&mut sorted, entry);
            proof {
                let p = choose|p: int| 0 <= p <= before.len() && sorted@ == before.insert(p, all[i]);
                lemma_fresh_key(all, i);
                lemma_entries_map_dom(before, key_view(all[i].0));
                lemma_insert_fresh(before, p, all[i]);
                assert(all.take(i + 1).drop_last() == all.take(i));
            }
        }
        proof {
            assert(all.take(all.len() as int) == all);
        }
        sorted
    }
}

/// In a list with distinct keys, the key of an entry is not among those before it.
proof fn lemma_fresh_key(all: Seq<(IssueKey, Issue)>, i: int)
    requires
        distinct_keys(all),
        0 <= i < all.len(),
    ensures
        !entries_map(all.take(i)).contains_key(key_view(all[i].0)),
{
    lemma_entries_map_dom(all.take(i), key_view(all[i].0));
    if entries_map(all.take(i)).contains_key(key_view(all[i].0)) {
        let x = choose|x: int| 0 <= x < i && key_view(#[trigger] all.take(i)[x].0) == key_view(all[i].0);
        assert(key_view(all[x].0) != key_view(all[i].0));
    }
}

/// Putting an entry with a new key anywhere into a list with distinct keys adds it to the map.
proof fn lemma_insert_fresh(s: Seq<(IssueKey, Issue)>, p: int, e: (IssueKey, Issue))
    requires
        distinct_keys(s),
        0 <= p <= s.len(),
        forall|x: int| 0 <= x < s.len() ==> key_view(#[trigger] s[x].0) != key_view(e.0),
    ensures
        distinct_keys(s.insert(p, e)),
        entries_map(s.insert(p, e)) == entries_map(s).insert(key_view(e.0), e.1),
{
    let t = s.insert(p, e);
    let m = entries_map(s).insert(key_view(e.0), e.1);
    assert forall|a: int, b: int| 0 <= a < b < t.len() implies key_view(#[trigger] t[a].0) != key_view(#[trigger] t[b].0) by {
        if a < p && b < p {
        } else if a < p && b == p {
        } else if a < p {
            assert(t[b] == s[b - 1]);
        } else if a == p {
            assert(t[b] == s[b - 1]);
        } else {
            assert(t[a] == s[a - 1] && t[b] == s[b - 1]);
        }
    }
    assert forall|k: (Seq<char>, u64)| m.contains_key(k) <==> exists|x: int| 0 <= x < t.len() && key_view(#[trigger] t[x].0) == k by {
        lemma_entries_map_dom(s, k);
        if exists|y: int| 0 <= y < s.len() && key_view(#[trigger] s[y].0) == k {
            let y = choose|y: int| 0 <= y < s.len() && key_view(#[trigger] s[y].0) == k;
            if y < p {
                assert(key_view(t[y].0) == k);
            } else {
                assert(key_view(t[y + 1].0) == k);
            }
        }
        if k == key_view(e.0) {
            assert(key_view(t[p].0) == k);
        }
        if exists|x: int| 0 <= x < t.len() && key_view(#[trigger] t[x].0) == k {
            let x = choose|x: int| 0 <= x < t.len() && key_view(#[trigger] t[x].0) == k;
            if x < p {
                assert(key_view(s[x].0) == k);
            } else if x > p {
                assert(key_view(s[x - 1].0) == k);
            }
        }
    }
    assert forall|x: int| 0 <= x < t.len() implies m[key_view(#[trigger] t[x].0)] == t[x].1 by {
        if x < p {
            lemma_entries_map_index(s, x);
        } else if x > p {
            lemma_entries_map_index(s, x - 1);
        }
    }
    lemma_entries_map_ext(t, m);
}

/// Distinct keys are ordered one way or the other.
proof fn lemma_key_less_total(a: (Seq<char>, u64), b: (Seq<char>, u64))
    requires
        !key_less(a, b),
        !key_less(b, a),
    ensures
        a == b,
{
    lemma_bytes_less_total(encode_utf8(a.0), encode_utf8(b.0));
    encode_utf8_decode_utf8(a.0);
    encode_utf8_decode_utf8(b.0);
    assert(a.0 == decode_utf8(encode_utf8(a.0)));
}

/// Dropping the first entry of a list with distinct keys drops its key from the map.
proof fn lemma_entries_map_drop_first(a: Seq<(IssueKey, Issue)>)
    requires
        distinct_keys(a),
        a.len() > 0,
    ensures
        distinct_keys(a.drop_first()),
        entries_map(a.drop_first()) == entries_map(a).remove(key_view(a[0].0)),
{
    let t = a.drop_first();
    let k0 = key_view(a[0].0);
    let m = entries_map(a).remove(k0);
    assert forall|i: int, j: int| 0 <= i < j < t.len() implies key_view(#[trigger] t[i].0) != key_view(#[trigger] t[j].0) by {
        assert(t[i] == a[i + 1] && t[j] == a[j + 1]);
    }
    assert forall|q: (Seq<char>, u64)| m.contains_key(q) <==> exists|x: int| 0 <= x < t.len() && key_view(#[trigger] t[x].0) == q by {
        lemma_entries_map_dom(a, q);
        if m.contains_key(q) {
            let y = choose|y: int| 0 <= y < a.len() && key_view(#[trigger] a[y].0) == q;
            assert(y != 0);
            assert(key_view(t[y - 1].0) == q);
        }
        if exists|x: int| 0 <= x < t.len() && key_view(#[trigger] t[x].0) == q {
            let x = choose|x: int| 0 <= x < t.len() && key_view(#[trigger] t[x].0) == q;
            assert(t[x] == a[x + 1]);
            assert(key_view(a[x + 1].0) != k0);
        }
    }
    assert forall|x: int| 0 <= x < t.len() implies m[key_view(#[trigger] t[x].0)] == t[x].1 by {
        assert(t[x] == a[x + 1]);
        assert(key_view(a[x + 1].0) != k0);
        lemma_entries_map_index(a, x + 1);
    }
    lemma_entries_map_ext(t, m);
}

/// Law: the saved form of a database depends only on what it stores. Two lists sorted by key,
/// each key once, that store the same issues list the same keys with the same issues in the
/// same order; so saving the same contents twice gives the same list.
pub proof fn lemma_saved_form_unique(a: Seq<(IssueKey, Issue)>, b: Seq<(IssueKey, Issue)>)
    requires
        sorted_by_key(a),
        distinct_keys(a),
        sorted_by_key(b),
        distinct_keys(b),
        entries_map(a) == entries_map(b),
    ensures
        a.len() == b.len(),
        forall|i: int| 0 <= i < a.len() ==> key_view(#[trigger] a[i].0) == key_view(b[i].0) && a[i].1 == b[i].1,
    decreases a.len(),
{
    lemma_entries_map_len(a);
    lemma_entries_map_len(b);
    if a.len() > 0 {
        let ka = key_view(a[0].0);
        let kb = key_view(b[0].0);
        lemma_entries_map_index(a, 0);
        lemma_entries_map_index(b, 0);
        lemma_entries_map_dom(b, ka);
        lemma_entries_map_dom(a, kb);
        let j = choose|j: int| 0 <= j < b.len() && key_view(#[trigger] b[j].0) == ka;
        let i = choose|i: int| 0 <= i < a.len() && key_view(#[trigger] a[i].0) == kb;
        if j > 0 {
            assert(!key_less(key_view(b[j].0), key_view(b[0].0)));
        }
        if i > 0 {
            assert(!key_less(key_view(a[i].0), key_view(a[0].0)));
        }
        if key_less(ka, kb) {
            lemma_key_less_asym(ka, ka);
        }
        if key_less(kb, ka) {
            lemma_key_less_asym(kb, kb);
        }
        lemma_key_less_total(ka, kb);
        lemma_entries_map_drop_first(a);
        lemma_entries_map_drop_first(b);
        let ta = a.drop_first();
        let tb = b.drop_first();
        assert forall|x: int, y: int| 0 <= x < y < ta.len() implies !key_less(key_view(#[trigger] ta[y].0), key_view(#[trigger] ta[x].0)) by {
            assert(ta[x] == a[x + 1] && ta[y] == a[y + 1]);
        }
        assert forall|x: int, y: int| 0 <= x < y < tb.len() implies !key_less(key_view(#[trigger] tb[y].0), key_view(#[trigger] tb[x].0)) by {
            assert(tb[x] == b[x + 1] && tb[y] == b[y + 1]);
        }
        lemma_saved_form_unique(ta, tb);
        assert forall|x: int| 0 <= x < a.len() implies key_view(#[trigger] a[x].0) == key_view(b[x].0) && a[x].1 == b[x].1 by {
            if x > 0 {
                assert(ta[x - 1] == a[x] && tb[x - 1] == b[x]);
            }
        }
    }
}


/// Law: loading a saved list and saving the database again gives back the same list: the
/// same keys with the same issues in the same order.
pub proof fn lemma_saved_list_round_trip(
    saved: Seq<(IssueKey, Issue)>,
    loaded: IssueDatabase,
    resaved: Seq<(IssueKey, Issue)>,
)
    requires
        sorted_by_key(saved),
        distinct_keys(saved),
        loaded@ == entries_map(saved),
        sorted_by_key(resaved),
        distinct_keys(resaved),
        entries_map(resaved) == loaded@,
    ensures
        resaved.len() == saved.len(),
        forall|i: int| 0 <= i < saved.len() ==> key_view(#[trigger] resaved[i].0) == key_view(saved[i].0) && resaved[i].1 == saved[i].1,
{
    lemma_saved_form_unique(resaved, saved);
}

} // verus!
