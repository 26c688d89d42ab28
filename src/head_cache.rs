//! The head byte cache: the first bytes of each track, by track key, holding
//! at most `MAX_CACHE_SIZE / CACHE_HEAD` entries. Before an insertion that
//! would go over budget, the entry whose key sorts first is evicted.
use vstd::prelude::*;
use crate::text::chars_of;

verus! {

/// Bytes of the head region of each track.
pub const CACHE_HEAD: u64 = 1048576;

/// Byte budget of the head cache, counted as `CACHE_HEAD` per entry.
pub const MAX_CACHE_SIZE: u64 = 10496000;

/// Lexicographic order of keys, by character; a proper prefix sorts first.
pub open spec fn key_lt(a: Seq<char>, b: Seq<char>) -> bool
    decreases a.len(),
{
    if a.len() == 0 {
        b.len() > 0
    } else if b.len() == 0 {
        false
    } else if a[0] < b[0] {
        true
    } else if a[0] == b[0] {
        key_lt(a.drop_first(), b.drop_first())
    } else {
        false
    }
}

proof fn lemma_key_lt_irreflexive_asym(a: Seq<char>, b: Seq<char>)
    ensures
        !(key_lt(a, b) && key_lt(b, a)),
        !key_lt(a, a),
    decreases a.len(),
{
    if a.len() > 0 && b.len() > 0 {
        lemma_key_lt_irreflexive_asym(a.drop_first(), b.drop_first());
    }
    if a.len() > 0 {
        lemma_key_lt_irreflexive_asym(a.drop_first(), a.drop_first());
    }
}

proof fn lemma_key_lt_trans(a: Seq<char>, b: Seq<char>, c: Seq<char>)
    requires
        key_lt(a, b),
        key_lt(b, c),
    ensures
        key_lt(a, c),
    decreases a.len(),
{
    if a.len() > 0 && b.len() > 0 && c.len() > 0 && a[0] == b[0] && b[0] == c[0] {
        lemma_key_lt_trans(a.drop_first(), b.drop_first(), c.drop_first());
    }
}

proof fn lemma_key_lt_total(a: Seq<char>, b: Seq<char>)
    requires
        a != b,
    ensures
        key_lt(a, b) || key_lt(b, a),
    decreases a.len(),
{
    if a.len() > 0 && b.len() > 0 && a[0] == b[0] {
        if a.drop_first() == b.drop_first() {
            assert(a =~= seq![a[0]] + a.drop_first());
            assert(b =~= seq![b[0]] + b.drop_first());
        }
        lemma_key_lt_total(a.drop_first(), b.drop_first());
    } else if a.len() > 0 && b.len() > 0 {
        assert(a[0] != b[0]);
    } else if a.len() == 0 && b.len() == 0 {
        assert(a =~= b);
    }
}

fn key_less(a: &Vec<char>, b: &Vec<char>) -> (r: bool)
    ensures
        r == key_lt(a@, b@),
{
    let mut i: usize = 0;
    assert(a@.subrange(0, a@.len() as int) =~= a@);
    assert(b@.subrange(0, b@.len() as int) =~= b@);
    while i < a.len() && i < b.len() && a[i] == b[i]
        invariant
            i <= a@.len(),
            i <= b@.len(),
            key_lt(a@, b@) == key_lt(a@.subrange(i as int, a@.len() as int), b@.subrange(i as int, b@.len() as int)),
        decreases a@.len() - i,
    {
        let ghost sa = a@.subrange(i as int, a@.len() as int);
        let ghost sb = b@.subrange(i as int, b@.len() as int);
        assert(sa.drop_first() =~= a@.subrange(i + 1, a@.len() as int));
        assert(sb.drop_first() =~= b@.subrange(i + 1, b@.len() as int));
        i = i + 1;
    }
    let ghost sa = a@.subrange(i as int, a@.len() as int);
    let ghost sb = b@.subrange(i as int, b@.len() as int);
    if i == a.len() {
        assert(sa.len() == 0);
        i < b.len()
    } else if i == b.len() {
        assert(sb.len() == 0);
        false
    } else {
        assert(sa[0] == a@[i as int] && sb[0] == b@[i as int]);
        a[i] < b[i]
    }
}

/// Keys of the cache are distinct.
pub open spec fn distinct_keys(s: Seq<(Seq<char>, Seq<u8>)>) -> bool {
    forall|i: int, j: int| 0 <= i < s.len() && 0 <= j < s.len() && i != j ==> s[i].0 != s[j].0
}

pub open spec fn has_key(s: Seq<(Seq<char>, Seq<u8>)>, key: Seq<char>) -> bool {
    exists|i: int| 0 <= i < s.len() && s[i].0 == key
}

/// The bytes cached under `key`.
pub open spec fn head_for(s: Seq<(Seq<char>, Seq<u8>)>, key: Seq<char>) -> Option<Seq<u8>> {
    if has_key(s, key) {
        Some(s[choose|i: int| 0 <= i < s.len() && s[i].0 == key].1)
    } else {
        None
    }
}

/// Entry `i` holds the key that sorts first.
pub open spec fn is_first_key(s: Seq<(Seq<char>, Seq<u8>)>, i: int) -> bool {
    &&& 0 <= i < s.len()
    &&& forall|j: int| 0 <= j < s.len() && j != i ==> key_lt(s[i].0, s[j].0)
}

/// An insertion into a cache of `n` entries would go over the byte budget.
pub open spec fn over_budget(n: int) -> bool {
    (n + 1) * CACHE_HEAD > MAX_CACHE_SIZE
}

/// The cache after the eviction that precedes an insertion.
pub open spec fn evicted(s: Seq<(Seq<char>, Seq<u8>)>) -> Seq<(Seq<char>, Seq<u8>)> {
    if over_budget(s.len() as int) && s.len() > 0 {
        s.remove(choose|i: int| is_first_key(s, i))
    } else {
        s
    }
}

/// The cache with `key` mapped to `b`: in place where the key is present, else at the end.
pub open spec fn stored(s: Seq<(Seq<char>, Seq<u8>)>, key: Seq<char>, b: Seq<u8>) -> Seq<(Seq<char>, Seq<u8>)> {
    if has_key(s, key) {
        s.update(choose|i: int| 0 <= i < s.len() && s[i].0 == key, (key, b))
    } else {
        s.push((key, b))
    }
}

/// What a cache holds after an insertion of `b` under `key`.
pub open spec fn after_put(s: Seq<(Seq<char>, Seq<u8>)>, key: Seq<char>, b: Seq<u8>) -> Seq<(Seq<char>, Seq<u8>)> {
    stored(evicted(s), key, b)
}

/// The bytes of `b` from `from` up to `to`, both clamped to its length.
pub open spec fn clamped(b: Seq<u8>, from: int, to: int) -> Seq<u8> {
    let end = if to < b.len() { to } else { b.len() as int };
    if from < end { b.subrange(from, end) } else { Seq::empty() }
}

pub struct HeadCache {
    entries: Vec<(String, Vec<u8>)>,
}

impl View for HeadCache {
    type V = Seq<(Seq<char>, Seq<u8>)>;

    closed spec fn view(&self) -> Seq<(Seq<char>, Seq<u8>)> {
        self.entries@.map_values(|e: (String, Vec<u8>)| (e.0@, e.1@))
    }
}

/// Copies `b[from..min(to, len)]`.
pub fn copy_clamped(b: &Vec<u8>, from: u64, to: u64) -> (r: Vec<u8>)
    ensures
        r@ == clamped(b@, from as int, to as int),
{
    let end: usize = if to < b.len() as u64 { to as usize } else { b.len() };
    let mut out: Vec<u8> = Vec::new();
    if from >= end as u64 {
        assert(out@ =~= clamped(b@, from as int, to as int));
        return out;
    }
    let mut k: usize = from as usize;
    while k < end
        invariant
            from <= k <= end <= b@.len(),
            out@ == b@.subrange(from as int, k as int),
        decreases end - k,
    {
        out.push(b[k]);
        k = k + 1;
        assert(out@ =~= b@.subrange(from as int, k as int));
    }
    out
}

impl HeadCache {
    pub open spec fn wf(&self) -> bool {
        &&& distinct_keys(self@)
        &&& self@.len() <= MAX_CACHE_SIZE / CACHE_HEAD
    }

    pub fn new() -> (r: HeadCache)
        ensures
            r.wf(),
            r@ == Seq::<(Seq<char>, Seq<u8>)>::empty(),
    {
        let r = HeadCache { entries: Vec::new() };
        assert(r@ =~= Seq::<(Seq<char>, Seq<u8>)>::empty());
        r
    }

    pub fn len(&self) -> (r: usize)
        requires
            self.wf(),
        ensures
            r == self@.len(),
            r <= MAX_CACHE_SIZE / CACHE_HEAD,
    {
        self.entries.len()
    }

    fn find(&self, key: &String) -> (r: Option<usize>)
        requires
            self.wf(),
        ensures
            match r {
                Some(i) => i < self@.len() && self@[i as int].0 == key@
                    && i as int == choose|j: int| 0 <= j < self@.len() && self@[j].0 == key@,
                None => !has_key(self@, key@),
            },
    {
        let mut i: usize = 0;
        while i < self.entries.len()
            invariant
                self.wf(),
                i <= self@.len(),
                self@.len() == self.entries@.len(),
                forall|j: int| 0 <= j < i ==> self@[j].0 != key@,
            decreases self@.len() - i,
        {
            assert(self@[i as int].0 == self.entries@[i as int].0@);
            if self.entries[i].0 == *key {
                let ghost c = choose|j: int| 0 <= j < self@.len() && self@[j].0 == key@;
                assert(c == i);
                return Some(i);
            }
            i = i + 1;
        }
        None
    }

    /// The cached bytes of `key` from `from` up to `to`, clamped to what is held;
    /// none where `key` is not cached.
    pub fn read_range(&self, key: &String, from: u64, to: u64) -> (r: Option<Vec<u8>>)
        requires
            self.wf(),
        ensures
            match head_for(self@, key@) {
                Some(b) => r is Some && r->0@ == clamped(b, from as int, to as int),
                None => r is None,
            },
    {
        match self.find(key) {
            Some(i) => {
                assert(self@[i as int].1 == self.entries@[i as int].1@);
                Some(copy_clamped(&self.entries[i].1, from, to))
            },
            None => None,
        }
    }

    /// Index of the entry whose key sorts first.
    fn first_key(&self) -> (r: usize)
        requires
            self.wf(),
            self@.len() > 0,
        ensures
            is_first_key(self@, r as int),
    {
        let mut best: usize = 0;
        let mut best_chars = chars_of(self.entries[0].0.as_str());
        let mut i: usize = 1;
        while i < self.entries.len()
            invariant
                self.wf(),
                self@.len() == self.entries@.len(),
                best < i <= self@.len(),
                best_chars@ == self@[best as int].0,
                forall|j: int| 0 <= j < i && j != best ==> key_lt(self@[best as int].0, #[trigger] self@[j].0),
            decreases self@.len() - i,
        {
            let cur = chars_of(self.entries[i].0.as_str());
            assert(cur@ == self@[i as int].0);
            if key_less(&cur, &best_chars) {
                proof {
                    assert forall|j: int| 0 <= j < i + 1 && j != i implies key_lt(self@[i as int].0, #[trigger] self@[j].0) by {
                        if j != best {
                            lemma_key_lt_trans(self@[i as int].0, self@[best as int].0, self@[j].0);
                        }
                    }
                }
                best = i;
                best_chars = cur;
            } else {
                proof {
                    lemma_key_lt_total(self@[i as int].0, self@[best as int].0);
                }
            }
            i = i + 1;
        }
        best
    }

    /// Caches `b` under `key`, evicting first the entry whose key sorts first
    /// where one more entry would go over the byte budget.
    pub fn put(&mut self, key: String, b: Vec<u8>)
        requires
            old(self).wf(),
        ensures
            final(self).wf(),
            final(self)@ == after_put(old(self)@, key@, b@),
            final(self)@.len() <= MAX_CACHE_SIZE / CACHE_HEAD,
    {
        let n: usize = self.entries.len();
        if n > 0 && (n as u64 >= MAX_CACHE_SIZE / CACHE_HEAD || (n as u64 + 1) * CACHE_HEAD > MAX_CACHE_SIZE) {
            let v = self.first_key();
            proof {
                lemma_first_key_unique(old(self)@, v as int);
            }
            self.entries.remove(v);
            assert(self@ =~= old(self)@.remove(v as int));
        } else {
            assert(n > 0 ==> !over_budget(n as int));
        }
        proof {
            lemma_put_within_capacity(old(self)@, key@, b@);
        }
        let ghost mid = self@;
        assert(mid == evicted(old(self)@));
        assert(distinct_keys(mid));
        match self.find(&key) {
            Some(i) => {
                self.entries.set(i, (key, b));
                assert(self@ =~= mid.update(i as int, (key@, b@)));
            },
            None => {
                self.entries.push((key, b));
                assert(self@ =~= mid.push((key@, b@)));
            },
        }
    }
}

proof fn lemma_first_key_in_prefix(s: Seq<(Seq<char>, Seq<u8>)>, n: int) -> (m: int)
    requires
        distinct_keys(s),
        0 < n <= s.len(),
    ensures
        0 <= m < n,
        forall|j: int| 0 <= j < n && j != m ==> key_lt(s[m].0, #[trigger] s[j].0),
    decreases n,
{
    if n == 1 {
        0
    } else {
        let m0 = lemma_first_key_in_prefix(s, n - 1);
        let last = n - 1;
        lemma_key_lt_total(s[last].0, s[m0].0);
        if key_lt(s[last].0, s[m0].0) {
            assert forall|j: int| 0 <= j < n && j != last implies key_lt(s[last].0, #[trigger] s[j].0) by {
                if j != m0 {
                    lemma_key_lt_trans(s[last].0, s[m0].0, s[j].0);
                }
            }
            last
        } else {
            m0
        }
    }
}

/// A cache with distinct keys that is not empty has an entry whose key sorts first.
proof fn lemma_first_key_exists(s: Seq<(Seq<char>, Seq<u8>)>)
    requires
        distinct_keys(s),
        s.len() > 0,
    ensures
        is_first_key(s, choose|i: int| is_first_key(s, i)),
{
    let m = lemma_first_key_in_prefix(s, s.len() as int);
    assert(is_first_key(s, m));
}

/// An insertion keeps keys distinct, and the inserted key then maps to the inserted bytes.
pub proof fn lemma_after_put(s: Seq<(Seq<char>, Seq<u8>)>, key: Seq<char>, b: Seq<u8>)
    requires
        distinct_keys(s),
    ensures
        distinct_keys(after_put(s, key, b)),
        head_for(after_put(s, key, b), key) == Some(b),
        after_put(s, key, b).len() <= s.len() + 1,
        over_budget(s.len() as int) && s.len() > 0 ==> after_put(s, key, b).len() <= s.len(),
{
    let e = evicted(s);
    if over_budget(s.len() as int) && s.len() > 0 {
        lemma_first_key_exists(s);
        let c = choose|i: int| is_first_key(s, i);
        assert(e == s.remove(c));
        assert forall|i: int, j: int| 0 <= i < e.len() && 0 <= j < e.len() && i != j implies e[i].0 != e[j].0 by {
            let si = if i < c { i } else { i + 1 };
            let sj = if j < c { j } else { j + 1 };
            assert(e[i] == s[si] && e[j] == s[sj]);
        }
    }
    assert(distinct_keys(e));
    let r = stored(e, key, b);
    if has_key(e, key) {
        let c = choose|i: int| 0 <= i < e.len() && e[i].0 == key;
        assert(r == e.update(c, (key, b)));
        assert(r[c].0 == key);
        assert(distinct_keys(r));
        let d = choose|i: int| 0 <= i < r.len() && r[i].0 == key;
        assert(d == c);
    } else {
        assert(r == e.push((key, b)));
        assert(r[e.len() as int].0 == key);
        assert(distinct_keys(r));
        let d = choose|i: int| 0 <= i < r.len() && r[i].0 == key;
        assert(d == e.len());
    }
}

/// However many insertions a cache has taken, it holds at most
/// `MAX_CACHE_SIZE / CACHE_HEAD` entries: one more insertion keeps it so.
pub proof fn lemma_put_within_capacity(s: Seq<(Seq<char>, Seq<u8>)>, key: Seq<char>, b: Seq<u8>)
    requires
        distinct_keys(s),
        s.len() <= MAX_CACHE_SIZE / CACHE_HEAD,
    ensures
        after_put(s, key, b).len() <= MAX_CACHE_SIZE / CACHE_HEAD,
{
    lemma_after_put(s, key, b);
    if s.len() < MAX_CACHE_SIZE / CACHE_HEAD {
        assert(s.len() + 1 <= MAX_CACHE_SIZE / CACHE_HEAD);
    } else {
        assert(over_budget(s.len() as int));
    }
}

proof fn lemma_first_key_unique(s: Seq<(Seq<char>, Seq<u8>)>, i: int)
    requires
        is_first_key(s, i),
    ensures
        (choose|j: int| is_first_key(s, j)) == i,
{
    let c = choose|j: int| is_first_key(s, j);
    if c != i {
        lemma_key_lt_irreflexive_asym(s[i].0, s[c].0);
    }
}

} // verus!
