//! Count tables: weighted counts per key, with the ranking used by every
//! report (largest count first, ties broken by key order).

use vstd::prelude::*;

use crate::text::{
    chars_of, lemma_seq_char_lt_irreflexive, lemma_seq_char_lt_total,
    lemma_seq_char_lt_transitive, less_chars, seq_char_lt,
};

verus! {

/// A sample count or a CPU-time weight in microseconds.
pub type Count = u64;

/// A key of a count table: compared by its view, and ordered by a strict
/// total order on views (the order of the key type's `Ord`).
pub trait CountKey: View + Sized {
    /// The order of keys.
    spec fn key_lt(a: Self::V, b: Self::V) -> bool;

    proof fn lemma_key_lt_irreflexive(a: Self::V)
        ensures
            !Self::key_lt(a, a),
    ;

    proof fn lemma_key_lt_transitive(a: Self::V, b: Self::V, c: Self::V)
        requires
            Self::key_lt(a, b),
            Self::key_lt(b, c),
        ensures
            Self::key_lt(a, c),
    ;

    proof fn lemma_key_lt_total(a: Self::V, b: Self::V)
        ensures
            a == b || Self::key_lt(a, b) || Self::key_lt(b, a),
    ;

    /// Do the two keys have the same view?
    fn same_key(&self, other: &Self) -> (r: bool)
        ensures
            r == (self@ == other@),
    ;

    /// Is `self` before `other`?
    fn less_key(&self, other: &Self) -> (r: bool)
        ensures
            r == Self::key_lt(self@, other@),
    ;

    /// A copy of the key.
    fn copy_key(&self) -> (r: Self)
        ensures
            r@ == self@,
    ;

    /// The text shown for a key that has no resolved symbol.
    spec fn fallback_label_spec(v: Self::V) -> Seq<char>;

    /// The text shown for this key when it has no resolved symbol.
    fn fallback_label(&self) -> (r: String)
        ensures
            r@ == Self::fallback_label_spec(self@),
    ;
}

impl CountKey for String {
    open spec fn key_lt(a: Seq<char>, b: Seq<char>) -> bool {
        seq_char_lt(a, b)
    }

    proof fn lemma_key_lt_irreflexive(a: Seq<char>) {
        lemma_seq_char_lt_irreflexive(a);
    }

    proof fn lemma_key_lt_transitive(a: Seq<char>, b: Seq<char>, c: Seq<char>) {
        lemma_seq_char_lt_transitive(a, b, c);
    }

    proof fn lemma_key_lt_total(a: Seq<char>, b: Seq<char>) {
        lemma_seq_char_lt_total(a, b);
    }

    fn same_key(&self, other: &Self) -> (r: bool) {
        *self == *other
    }

    fn less_key(&self, other: &Self) -> (r: bool) {
        let a = chars_of(self.as_str());
        let b = chars_of(other.as_str());
        less_chars(&a, &b)
    }

    fn copy_key(&self) -> (r: Self) {
        self.clone()
    }

    /// A name is shown as it is.
    open spec fn fallback_label_spec(v: Seq<char>) -> Seq<char> {
        v
    }

    fn fallback_label(&self) -> (r: String) {
        self.clone()
    }
}

/// A frame of a multi-image profile: the image that owns it (when known)
/// and its raw name.
#[derive(Debug, Clone, PartialEq, Eq, Hash, PartialOrd, Ord)]
pub struct MixedKey {
    pub image: Option<String>,
    pub raw: String,
}

/// The view of an optional string.
pub open spec fn opt_view(s: Option<String>) -> Option<Seq<char>> {
    match s {
        Some(s) => Some(s@),
        None => None,
    }
}

/// The order of `Option<String>`: `None` first, then by string.
pub open spec fn opt_lt(a: Option<Seq<char>>, b: Option<Seq<char>>) -> bool {
    match (a, b) {
        (None, Some(_)) => true,
        (Some(x), Some(y)) => seq_char_lt(x, y),
        _ => false,
    }
}

impl View for MixedKey {
    type V = (Option<Seq<char>>, Seq<char>);

    open spec fn view(&self) -> (Option<Seq<char>>, Seq<char>) {
        (opt_view(self.image), self.raw@)
    }
}

fn opt_string_eq(a: &Option<String>, b: &Option<String>) -> (r: bool)
    ensures
        r == (opt_view(*a) == opt_view(*b)),
{
    match (a, b) {
        (Some(x), Some(y)) => *x == *y,
        (None, None) => true,
        _ => false,
    }
}

fn opt_string_lt(a: &Option<String>, b: &Option<String>) -> (r: bool)
    ensures
        r == opt_lt(opt_view(*a), opt_view(*b)),
{
    match (a, b) {
        (None, Some(_)) => true,
        (Some(x), Some(y)) => x.less_key(y),
        _ => false,
    }
}

fn copy_opt_string(a: &Option<String>) -> (r: Option<String>)
    ensures
        opt_view(r) == opt_view(*a),
{
    match a {
        Some(x) => Some(x.clone()),
        None => None,
    }
}

impl CountKey for MixedKey {
    /// The derived order: by image, then by raw name.
    open spec fn key_lt(a: (Option<Seq<char>>, Seq<char>), b: (Option<Seq<char>>, Seq<char>)) -> bool {
        opt_lt(a.0, b.0) || (a.0 == b.0 && seq_char_lt(a.1, b.1))
    }

    proof fn lemma_key_lt_irreflexive(a: (Option<Seq<char>>, Seq<char>)) {
        lemma_seq_char_lt_irreflexive(a.1);
        if let Some(x) = a.0 {
            lemma_seq_char_lt_irreflexive(x);
        }
    }

    proof fn lemma_key_lt_transitive(
        a: (Option<Seq<char>>, Seq<char>),
        b: (Option<Seq<char>>, Seq<char>),
        c: (Option<Seq<char>>, Seq<char>),
    ) {
        if let Some(x) = a.0 {
            lemma_seq_char_lt_irreflexive(x);
        }
        if let Some(y) = b.0 {
            lemma_seq_char_lt_irreflexive(y);
        }
        if a.0 == b.0 && b.0 == c.0 {
            lemma_seq_char_lt_transitive(a.1, b.1, c.1);
        } else if let (Some(x), Some(y), Some(z)) = (a.0, b.0, c.0) {
            if opt_lt(a.0, b.0) && opt_lt(b.0, c.0) {
                lemma_seq_char_lt_transitive(x, y, z);
            }
        }
    }

    proof fn lemma_key_lt_total(a: (Option<Seq<char>>, Seq<char>), b: (Option<Seq<char>>, Seq<char>)) {
        lemma_seq_char_lt_total(a.1, b.1);
        if let (Some(x), Some(y)) = (a.0, b.0) {
            lemma_seq_char_lt_total(x, y);
        }
    }

    fn same_key(&self, other: &Self) -> (r: bool) {
        opt_string_eq(&self.image, &other.image) && self.raw == other.raw
    }

    fn less_key(&self, other: &Self) -> (r: bool) {
        if opt_string_lt(&self.image, &other.image) {
            true
        } else if opt_string_eq(&self.image, &other.image) {
            self.raw.less_key(&other.raw)
        } else {
            false
        }
    }

    fn copy_key(&self) -> (r: Self) {
        MixedKey { image: copy_opt_string(&self.image), raw: self.raw.clone() }
    }

    /// A frame is shown by its raw name.
    open spec fn fallback_label_spec(v: (Option<Seq<char>>, Seq<char>)) -> Seq<char> {
        v.1
    }

    fn fallback_label(&self) -> (r: String) {
        self.raw.clone()
    }
}

/// Weighted counts per key (the role of a `HashMap<K, Count>`): each key
/// appears once, in the order it was first added.
pub struct CountTable<K> {
    keys: Vec<K>,
    counts: Vec<Count>,
}

impl<K: CountKey> CountTable<K> {
    /// The views of the keys, in table order.
    pub closed spec fn key_views(&self) -> Seq<K::V> {
        self.keys@.map_values(|k: K| k@)
    }

    /// The number of entries.
    pub closed spec fn size(&self) -> nat {
        self.keys@.len()
    }

    /// The key of entry `i`.
    pub closed spec fn key_at(&self, i: int) -> K::V {
        self.keys@[i]@
    }

    /// The count of entry `i`.
    pub closed spec fn count_at(&self, i: int) -> nat {
        self.counts@[i] as nat
    }

    /// Keys and counts line up, and no key occurs twice.
    pub closed spec fn wf(&self) -> bool {
        &&& self.keys@.len() == self.counts@.len()
        &&& forall|i: int, j: int|
            0 <= i < j < self.keys@.len() ==> self.keys@[i]@ != self.keys@[j]@
    }

    /// The count of `k`, zero when absent.
    pub open spec fn count_of(&self, k: K::V) -> nat {
        if self@.contains_key(k) {
            self@[k]
        } else {
            0
        }
    }

    /// An empty table.
    pub fn new() -> (t: Self)
        ensures
            t.wf(),
            t@ == Map::<K::V, nat>::empty(),
            t.size() == 0,
    {
        let t = CountTable { keys: Vec::new(), counts: Vec::new() };
        assert(t@ == Map::<K::V, nat>::empty());
        t
    }

    /// The number of entries.
    pub fn len(&self) -> (n: usize)
        requires
            self.wf(),
        ensures
            n == self.size(),
            n == self@.dom().len(),
    {
        proof {
            self.lemma_dom_len();
        }
        self.keys.len()
    }

    /// Entry `i` is the entry of its key.
    pub proof fn lemma_entry(&self, i: int)
        requires
            self.wf(),
            0 <= i < self.size(),
        ensures
            self@.contains_key(self.key_at(i)),
            self@[self.key_at(i)] == self.count_at(i),
    {
        let kv = self.key_views();
        assert(kv[i] == self.key_at(i));
        assert(kv.contains(self.key_at(i)));
        let j = kv.index_of(self.key_at(i));
        assert(kv[j] == self.key_at(i));
        assert(self.keys@[j]@ == self.keys@[i]@);
        if j != i {
            if j < i {
                assert(self.keys@[j]@ != self.keys@[i]@);
            } else {
                assert(self.keys@[i]@ != self.keys@[j]@);
            }
        }
    }

    /// Every key of the map is the key of some entry.
    pub proof fn lemma_key_index(&self, k: K::V) -> (i: int)
        requires
            self.wf(),
            self@.contains_key(k),
        ensures
            0 <= i < self.size(),
            self.key_at(i) == k,
    {
        let kv = self.key_views();
        let i = kv.index_of(k);
        assert(kv[i] == k);
        i
    }

    /// Every count of a table fits in a `Count`.
    pub proof fn lemma_fits(&self)
        requires
            self.wf(),
        ensures
            fits(self@),
    {
        assert forall|k: K::V| self@.contains_key(k) implies #[trigger] self@[k] <= Count::MAX by {
            let j = self.lemma_key_index(k);
            self.lemma_entry(j);
        }
    }

    /// A well-formed table has finitely many keys, one per entry.
    pub proof fn lemma_dom_len(&self)
        requires
            self.wf(),
        ensures
            self@.dom().finite(),
            self@.dom().len() == self.size(),
    {
        let kv = self.key_views();
        assert(self@.dom() == kv.to_set());
        assert(kv.no_duplicates()) by {
            assert forall|i: int, j: int|
                0 <= i < kv.len() && 0 <= j < kv.len() && i != j implies kv[i] != kv[j] by {
                if i < j {
                    assert(self.keys@[i]@ != self.keys@[j]@);
                } else {
                    assert(self.keys@[j]@ != self.keys@[i]@);
                }
            }
        }
        kv.unique_seq_to_set();
    }

    /// The entry of `key`, if there is one.
    pub fn find(&self, key: &K) -> (r: Option<usize>)
        requires
            self.wf(),
        ensures
            r matches Some(i) ==> i < self.size() && self.key_at(i as int) == key@,
            r is None ==> !self@.contains_key(key@),
    {
        let n = self.keys.len();
        for i in 0..n
            invariant
                n == self.keys@.len(),
                self.wf(),
                forall|j: int| 0 <= j < i ==> self.keys@[j]@ != key@,
        {
            if self.keys[i].same_key(key) {
                return Some(i);
            }
        }
        proof {
            if self@.contains_key(key@) {
                let j = self.lemma_key_index(key@);
            }
        }
        None
    }

    /// The count of `key` (zero when absent).
    pub fn get(&self, key: &K) -> (c: Count)
        requires
            self.wf(),
        ensures
            c == self.count_of(key@),
    {
        match self.find(key) {
            Some(i) => {
                proof {
                    self.lemma_entry(i as int);
                }
                self.counts[i]
            },
            None => 0,
        }
    }

    /// The key and count of entry `i`.
    pub fn entry(&self, i: usize) -> (r: (&K, Count))
        requires
            self.wf(),
            i < self.size(),
        ensures
            r.0@ == self.key_at(i as int),
            r.1 == self.count_at(i as int),
    {
        (&self.keys[i], self.counts[i])
    }

    /// The entry of `key`, created with count zero when absent.
    pub fn slot(&mut self, key: K) -> (i: usize)
        requires
            old(self).wf(),
        ensures
            final(self).wf(),
            i < final(self).size(),
            final(self).key_at(i as int) == key@,
            final(self)@ == (if old(self)@.contains_key(key@) {
                old(self)@
            } else {
                old(self)@.insert(key@, 0)
            }),
            final(self)@[key@] == final(self).count_at(i as int),
            final(self).size() >= old(self).size(),
            forall|j: int|
                0 <= j < old(self).size() ==> #[trigger] final(self).key_at(j) == old(self).key_at(j),
            total_of(final(self)) == total_of(old(self)),
    {
        match self.find(&key) {
            Some(i) => {
                proof {
                    self.lemma_entry(i as int);
                }
                i
            },
            None => {
                let ghost old_t = *self;
                let ghost k = key@;
                self.keys.push(key);
                self.counts.push(0);
                let i = self.keys.len() - 1;
                proof {
                    assert(self.key_views() == old_t.key_views().push(k));
                    assert forall|a: int, b: int|
                        0 <= a < b < self.keys@.len() implies self.keys@[a]@ != self.keys@[b]@ by {
                        if b == i {
                            assert(old_t.key_views()[a] == old_t.keys@[a]@);
                            if old_t.keys@[a]@ == k {
                                old_t.lemma_entry(a);
                            }
                        } else {
                            assert(old_t.keys@[a]@ != old_t.keys@[b]@);
                        }
                    }
                    assert forall|kk: K::V| #[trigger] self@.contains_key(kk) implies old_t@.insert(
                        k,
                        0,
                    ).contains_key(kk) && self@[kk] == old_t@.insert(k, 0)[kk] by {
                        let j = self.lemma_key_index(kk);
                        self.lemma_entry(j);
                        if j < i {
                            old_t.lemma_entry(j);
                        }
                    }
                    assert forall|kk: K::V| old_t@.insert(k, 0).contains_key(kk) implies #[trigger] self@.contains_key(kk) by {
                        if kk == k {
                            self.lemma_entry(i as int);
                        } else {
                            let j = old_t.lemma_key_index(kk);
                            assert(self.keys@[j] == old_t.keys@[j]);
                            self.lemma_entry(j);
                        }
                    }
                    assert(self@ == old_t@.insert(k, 0));
                    self.lemma_entry(i as int);
                    assert forall|j: int| 0 <= j < old_t.size() implies #[trigger] self.key_at(j)
                        == old_t.key_at(j) by {
                        assert(self.keys@[j] == old_t.keys@[j]);
                    }
                    lemma_entries_total_same(&old_t, &*self, old_t.size());
                }
                i
            },
        }
    }

    /// Adds `weight` to entry `i`; `false`, and no change, when the sum does
    /// not fit in a `Count`.
    pub fn add_at(&mut self, i: usize, weight: Count) -> (ok: bool)
        requires
            old(self).wf(),
            i < old(self).size(),
        ensures
            final(self).wf(),
            final(self).size() == old(self).size(),
            forall|j: int| 0 <= j < old(self).size() ==> final(self).key_at(j) == old(self).key_at(j),
            ok == (old(self).count_at(i as int) + weight <= Count::MAX),
            ok ==> final(self)@ == old(self)@.insert(
                old(self).key_at(i as int),
                (old(self).count_at(i as int) + weight) as nat,
            ),
            !ok ==> final(self)@ == old(self)@,
            ok ==> total_of(final(self)) == total_of(old(self)) + weight,
            !ok ==> total_of(final(self)) == total_of(old(self)),
    {
        let c = self.counts[i];
        if c > Count::MAX - weight {
            return false;
        }
        let ghost old_t = *self;
        let ghost k = self.keys@[i as int]@;
        self.counts.set(i, c + weight);
        proof {
            assert(self.key_views() == old_t.key_views());
            assert forall|kk: K::V| #[trigger] self@.contains_key(kk) implies self@[kk] == old_t@.insert(
                k,
                (c + weight) as nat,
            )[kk] by {
                let j = self.lemma_key_index(kk);
                self.lemma_entry(j);
                old_t.lemma_entry(j);
                if j != i {
                    assert(old_t.keys@[j]@ != k) by {
                        if j < i {
                        } else {
                        }
                    }
                }
            }
            old_t.lemma_entry(i as int);
            assert(self@ == old_t@.insert(k, (c + weight) as nat));
            lemma_entries_total_bump(&old_t, &*self, i as int, weight as nat, old_t.size());
        }
        true
    }
}

impl<K: CountKey> View for CountTable<K> {
    type V = Map<K::V, nat>;

    closed spec fn view(&self) -> Map<K::V, nat> {
        let kv = self.keys@.map_values(|k: K| k@);
        Map::new(|k: K::V| kv.contains(k), |k: K::V| self.counts@[kv.index_of(k)] as nat)
    }
}

/// The sum of the first `n` counts of `t`.
pub open spec fn entries_total<K: CountKey>(t: &CountTable<K>, n: nat) -> nat
    decreases n,
{
    if n == 0 {
        0
    } else {
        entries_total(t, (n - 1) as nat) + t.count_at(n - 1)
    }
}

/// The sum of all counts of `t`.
pub open spec fn total_of<K: CountKey>(t: &CountTable<K>) -> nat {
    entries_total(t, t.size())
}

proof fn lemma_entries_total_same<K: CountKey>(t1: &CountTable<K>, t2: &CountTable<K>, n: nat)
    requires
        n <= t1.counts@.len(),
        n <= t2.counts@.len(),
        forall|j: int| 0 <= j < n ==> t1.counts@[j] == t2.counts@[j],
    ensures
        entries_total(t1, n) == entries_total(t2, n),
        t2.counts@.len() == n + 1 && t2.counts@[n as int] == 0 ==> entries_total(t2, n + 1)
            == entries_total(t1, n),
    decreases n,
{
    if n > 0 {
        lemma_entries_total_same(t1, t2, (n - 1) as nat);
    }
}

proof fn lemma_entries_total_bump<K: CountKey>(
    t1: &CountTable<K>,
    t2: &CountTable<K>,
    i: int,
    w: nat,
    n: nat,
)
    requires
        n <= t1.counts@.len(),
        n <= t2.counts@.len(),
        forall|j: int| 0 <= j < n && j != i ==> t1.counts@[j] == t2.counts@[j],
        0 <= i < n ==> t2.counts@[i] == t1.counts@[i] + w,
    ensures
        entries_total(t2, n) == entries_total(t1, n) + (if 0 <= i < n {
            w
        } else {
            0
        }),
    decreases n,
{
    if n > 0 {
        lemma_entries_total_bump(t1, t2, i, w, (n - 1) as nat);
    }
}

/// Adds `weight` to the count of `key`, creating the entry when absent.
pub fn add_count<K: CountKey>(counts: &mut CountTable<K>, key: K, weight: Count)
    requires
        old(counts).wf(),
        old(counts).count_of(key@) + weight <= Count::MAX,
    ensures
        final(counts).wf(),
        final(counts)@ == old(counts)@.insert(key@, (old(counts).count_of(key@) + weight) as nat),
{
    let ghost k = key@;
    let i = counts.slot(key);
    let ok = counts.add_at(i, weight);
    assert(ok);
}

/// The views of a list of (key, count) entries.
pub open spec fn entries_view<K: View>(v: Seq<(K, Count)>) -> Seq<(K::V, nat)> {
    v.map_values(|e: (K, Count)| (e.0@, e.1 as nat))
}

/// Ranking order: larger count first, then smaller key.
pub open spec fn ranks_before<K: CountKey>(a: (K::V, nat), b: (K::V, nat)) -> bool {
    a.1 > b.1 || (a.1 == b.1 && K::key_lt(a.0, b.0))
}

/// The `min` of two naturals.
pub open spec fn min_nat(a: nat, b: nat) -> nat {
    if a <= b {
        a
    } else {
        b
    }
}

/// `r` lists the `limit` best-ranked entries of `m` (all of them when there
/// are fewer), best first.
pub open spec fn is_top<K: CountKey>(m: Map<K::V, nat>, limit: nat, r: Seq<(K::V, nat)>) -> bool {
    &&& r.len() == min_nat(limit, m.dom().len())
    &&& forall|i: int| 0 <= i < r.len() ==> m.contains_key(#[trigger] r[i].0) && m[r[i].0] == r[i].1
    &&& forall|i: int, j: int| 0 <= i < j < r.len() ==> ranks_before::<K>(r[i], r[j])
    &&& forall|k: K::V|
        #![trigger m.contains_key(k)]
        m.contains_key(k) && (forall|i: int| 0 <= i < r.len() ==> r[i].0 != k) ==> forall|i: int|
            0 <= i < r.len() ==> ranks_before::<K>(r[i], (k, m[k]))
}

/// No entry ranks before itself.
pub proof fn lemma_ranks_before_irreflexive<K: CountKey>(a: (K::V, nat))
    ensures
        !ranks_before::<K>(a, a),
{
    K::lemma_key_lt_irreflexive(a.0);
}

/// The ranking order is transitive.
pub proof fn lemma_ranks_before_transitive<K: CountKey>(
    a: (K::V, nat),
    b: (K::V, nat),
    c: (K::V, nat),
)
    requires
        ranks_before::<K>(a, b),
        ranks_before::<K>(b, c),
    ensures
        ranks_before::<K>(a, c),
{
    if a.1 == b.1 && b.1 == c.1 {
        K::lemma_key_lt_transitive(a.0, b.0, c.0);
    }
}

/// Of two entries under different keys, one ranks before the other.
pub proof fn lemma_ranks_before_total<K: CountKey>(a: (K::V, nat), b: (K::V, nat))
    requires
        a.0 != b.0,
    ensures
        ranks_before::<K>(a, b) || ranks_before::<K>(b, a),
{
    K::lemma_key_lt_total(a.0, b.0);
}

/// Is the entry (`k`, `c`) ranked before (`k2`, `c2`)?
fn ranks_before_exec<K: CountKey>(k: &K, c: Count, k2: &K, c2: Count) -> (r: bool)
    ensures
        r == ranks_before::<K>((k@, c as nat), (k2@, c2 as nat)),
{
    c > c2 || (c == c2 && k.less_key(k2))
}

/// The `limit` entries with the largest counts, largest first; equal counts
/// are ordered by key.
pub fn sorted_top<K: CountKey>(counts: &CountTable<K>, limit: usize) -> (r: Vec<(K, Count)>)
    requires
        counts.wf(),
    ensures
        is_top::<K>(counts@, limit as nat, entries_view(r@)),
{
    let n = counts.len();
    let mut buf: Vec<(K, Count)> = Vec::new();
    let ghost mut idx: Seq<int> = Seq::empty();
    for i in 0..n
        invariant
            n == counts.size(),
            n == counts@.dom().len(),
            counts.wf(),
            buf@.len() == idx.len(),
            buf@.len() == min_nat(limit as nat, i as nat),
            forall|q: int|
                0 <= q < idx.len() ==> 0 <= #[trigger] idx[q] < i && buf@[q].0@ == counts.key_at(
                    idx[q],
                ) && buf@[q].1 as nat == counts.count_at(idx[q]),
            forall|q1: int, q2: int|
                0 <= q1 < q2 < buf@.len() ==> ranks_before::<K>(
                    (buf@[q1].0@, buf@[q1].1 as nat),
                    (buf@[q2].0@, buf@[q2].1 as nat),
                ),
            forall|j: int|
                0 <= j < i ==> idx.contains(j) || (buf@.len() == limit && forall|q: int|
                    0 <= q < buf@.len() ==> ranks_before::<K>(
                        (#[trigger] buf@[q].0@, buf@[q].1 as nat),
                        (counts.key_at(j), counts.count_at(j)),
                    )),
    {
        let (k, c) = counts.entry(i);
        let ghost e = (k@, c as nat);
        proof {
            assert forall|q: int| 0 <= q < buf@.len() implies buf@[q].0@ != k@ by {
                let j = idx[q];
                assert(buf@[q].0@ == counts.key_at(j));
                assert(counts.keys@[j]@ != counts.keys@[i as int]@);
            }
        }
        let mut p: usize = 0;
        while p < buf.len() && ranks_before_exec(&buf[p].0, buf[p].1, k, c)
            invariant
                p <= buf@.len(),
                e == (k@, c as nat),
                forall|q: int|
                    0 <= q < p ==> ranks_before::<K>((#[trigger] buf@[q].0@, buf@[q].1 as nat), e),
            decreases buf@.len() - p,
        {
            p = p + 1;
        }
        proof {
            assert forall|q: int| p <= q < buf@.len() implies ranks_before::<K>(
                e,
                (#[trigger] buf@[q].0@, buf@[q].1 as nat),
            ) by {
                let bp = (buf@[p as int].0@, buf@[p as int].1 as nat);
                lemma_ranks_before_total::<K>(e, bp);
                if q > p {
                    lemma_ranks_before_transitive::<K>(e, bp, (buf@[q].0@, buf@[q].1 as nat));
                }
            }
        }
        let ghost old_buf = buf@;
        let ghost old_idx = idx;
        buf.insert(p, (k.copy_key(), c));
        proof {
            idx = idx.insert(p as int, i as int);
            assert forall|q1: int, q2: int| 0 <= q1 < q2 < buf@.len() implies ranks_before::<K>(
                (buf@[q1].0@, buf@[q1].1 as nat),
                (buf@[q2].0@, buf@[q2].1 as nat),
            ) by {
                if q1 < p {
                    assert(buf@[q1] == old_buf[q1]);
                    if q2 < p {
                        assert(buf@[q2] == old_buf[q2]);
                    } else if q2 > p {
                        assert(buf@[q2] == old_buf[q2 - 1]);
                        lemma_ranks_before_transitive::<K>(
                            (old_buf[q1].0@, old_buf[q1].1 as nat),
                            e,
                            (old_buf[q2 - 1].0@, old_buf[q2 - 1].1 as nat),
                        );
                    }
                } else if q1 == p {
                    assert(buf@[q2] == old_buf[q2 - 1]);
                } else {
                    assert(buf@[q1] == old_buf[q1 - 1]);
                    assert(buf@[q2] == old_buf[q2 - 1]);
                }
            }
        }
        if buf.len() > limit {
            let ghost full = buf@;
            let ghost full_idx = idx;
            let ghost last = (full[full.len() - 1].0@, full[full.len() - 1].1 as nat);
            buf.pop();
            proof {
                idx = idx.drop_last();
                assert forall|j: int| 0 <= j < i + 1 implies idx.contains(j) || (buf@.len() == limit
                    && forall|q: int|
                    0 <= q < buf@.len() ==> ranks_before::<K>(
                        (#[trigger] buf@[q].0@, buf@[q].1 as nat),
                        (counts.key_at(j), counts.count_at(j)),
                    )) by {
                    let ej = (counts.key_at(j), counts.count_at(j));
                    if !idx.contains(j) {
                        assert forall|q: int| 0 <= q < buf@.len() implies ranks_before::<K>(
                            (#[trigger] buf@[q].0@, buf@[q].1 as nat),
                            ej,
                        ) by {
                            assert(buf@[q] == full[q]);
                            let bq = (full[q].0@, full[q].1 as nat);
                            if full_idx[full.len() - 1] == j {
                                assert(full[full.len() - 1].0@ == counts.key_at(j));
                                assert(full[full.len() - 1].1 as nat == counts.count_at(j));
                            } else if j == i {
                                assert(full_idx[p as int] == j);
                                assert(idx[p as int] == j);
                            } else {
                                if old_idx.contains(j) {
                                    let w = choose|w: int| 0 <= w < old_idx.len() && old_idx[w] == j;
                                    if w < p {
                                        assert(idx[w] == j);
                                    } else {
                                        assert(full_idx[w + 1] == j);
                                        if w + 1 < full.len() - 1 {
                                            assert(idx[w + 1] == j);
                                        }
                                    }
                                } else {
                                    assert(old_buf.len() == limit);
                                    assert(forall|qq: int|
                                        0 <= qq < old_buf.len() ==> ranks_before::<K>(
                                            (#[trigger] old_buf[qq].0@, old_buf[qq].1 as nat),
                                            ej,
                                        ));
                                    let ol = old_buf.len() - 1;
                                    if p as int == full.len() - 1 {
                                        assert(full[q] == old_buf[q]);
                                    } else {
                                        let lastold = (old_buf[ol].0@, old_buf[ol].1 as nat);
                                        assert(full[full.len() - 1] == old_buf[ol]);
                                        assert(ranks_before::<K>(bq, last));
                                        lemma_ranks_before_transitive::<K>(bq, last, ej);
                                    }
                                }
                            }
                        }
                    }
                }
            }
        } else {
            proof {
                assert forall|j: int| 0 <= j < i + 1 implies idx.contains(j) by {
                    if j == i {
                        assert(idx[p as int] == j);
                    } else if old_idx.contains(j) {
                        let w = choose|w: int| 0 <= w < old_idx.len() && old_idx[w] == j;
                        if w < p {
                            assert(idx[w] == j);
                        } else {
                            assert(idx[w + 1] == j);
                        }
                    }
                }
            }
        }
    }
    proof {
        let ev = entries_view(buf@);
        assert forall|q: int| 0 <= q < ev.len() implies counts@.contains_key(#[trigger] ev[q].0)
            && counts@[ev[q].0] == ev[q].1 by {
            counts.lemma_entry(idx[q]);
        }
        assert forall|k: K::V|
            #![trigger counts@.contains_key(k)]
            counts@.contains_key(k) && (forall|q: int| 0 <= q < ev.len() ==> ev[q].0 != k) implies forall|q: int|
            0 <= q < ev.len() ==> ranks_before::<K>(ev[q], (k, counts@[k])) by {
            let j = counts.lemma_key_index(k);
            counts.lemma_entry(j);
            if idx.contains(j) {
                let w = choose|w: int| 0 <= w < idx.len() && idx[w] == j;
                assert(ev[w].0 == k);
            }
            assert forall|q: int| 0 <= q < ev.len() implies ranks_before::<K>(ev[q], (k, counts@[k])) by {
                assert(ev[q] == (buf@[q].0@, buf@[q].1 as nat));
            }
        }
    }
    buf
}

/// The count of `k` in `m` (zero when absent).
pub open spec fn count_in<V>(m: Map<V, nat>, k: V) -> nat {
    if m.contains_key(k) {
        m[k]
    } else {
        0
    }
}

/// `m` with `w` added to the count of `k`.
pub open spec fn add_one<V>(m: Map<V, nat>, k: V, w: nat) -> Map<V, nat> {
    m.insert(k, count_in(m, k) + w)
}

/// `m` with `w` added once for each key of `ks` (a key listed twice gets
/// `2 * w`).
pub open spec fn add_each<V>(m: Map<V, nat>, ks: Seq<V>, w: nat) -> Map<V, nat>
    decreases ks.len(),
{
    if ks.len() == 0 {
        m
    } else {
        add_one(add_each(m, ks.drop_last(), w), ks.last(), w)
    }
}

/// Every count of `m` fits in a `Count`.
pub open spec fn fits<V>(m: Map<V, nat>) -> bool {
    forall|k: V| m.contains_key(k) ==> #[trigger] m[k] <= Count::MAX
}

/// Adding more keys never lowers a count.
pub proof fn lemma_add_each_prefix_le<V>(m: Map<V, nat>, ks: Seq<V>, w: nat, i: int, k: V)
    requires
        0 <= i <= ks.len(),
    ensures
        count_in(add_each(m, ks.take(i), w), k) <= count_in(add_each(m, ks, w), k),
    decreases ks.len() - i,
{
    if i < ks.len() {
        lemma_add_each_prefix_le(m, ks, w, i + 1, k);
        assert(ks.take(i + 1).drop_last() == ks.take(i));
    } else {
        assert(ks.take(i) == ks);
    }
}

/// A table entry index per key of `keys`, where one is known.
pub open spec fn cache_ok<K: CountKey>(
    table: &CountTable<K>,
    cache: Seq<Option<usize>>,
    keys: Seq<K::V>,
) -> bool {
    &&& cache.len() == keys.len()
    &&& forall|f: int|
        0 <= f < cache.len() ==> (#[trigger] cache[f] matches Some(i) ==> i < table.size()
            && table.key_at(i as int) == keys[f])
}

/// The entry of `keys[f]`, found through `cache` or created with count zero.
pub fn cached_slot<K: CountKey>(
    table: &mut CountTable<K>,
    cache: &mut Vec<Option<usize>>,
    keys: &Vec<K>,
    f: usize,
) -> (i: usize)
    requires
        old(table).wf(),
        f < keys.len(),
        cache_ok(old(table), old(cache)@, keys@.map_values(|k: K| k@)),
    ensures
        final(table).wf(),
        cache_ok(final(table), final(cache)@, keys@.map_values(|k: K| k@)),
        i < final(table).size(),
        final(table).key_at(i as int) == keys@[f as int]@,
        final(table)@ == (if old(table)@.contains_key(keys@[f as int]@) {
            old(table)@
        } else {
            old(table)@.insert(keys@[f as int]@, 0)
        }),
        final(table)@[keys@[f as int]@] == final(table).count_at(i as int),
        total_of(final(table)) == total_of(old(table)),
{
    let ghost kv = keys@.map_values(|k: K| k@);
    assert(kv[f as int] == keys@[f as int]@);
    match cache[f] {
        Some(i) => {
            proof {
                table.lemma_entry(i as int);
            }
            i
        },
        None => {
            let ghost old_t = *table;
            let i = table.slot(keys[f].copy_key());
            let ghost old_cache = cache@;
            cache.set(f, Some(i));
            proof {
                assert forall|g: int| 0 <= g < cache@.len() implies (#[trigger] cache@[g] matches Some(
                    j,
                ) ==> j < table.size() && table.key_at(j as int) == kv[g]) by {
                    if g != f {
                        assert(cache@[g] == old_cache[g]);
                        if let Some(j) = old_cache[g] {
                            assert(table.key_at(j as int) == old_t.key_at(j as int));
                        }
                    }
                }
            }
            i
        },
    }
}

} // verus!
