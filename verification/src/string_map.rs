//! `StringMap`: a map from `String` keys to `String` values that keeps its
//! entries in ascending key order (the order of `String`'s `Ord`), so that a
//! walk over it yields the keys sorted, as a `BTreeMap<String, String>` does.

use vstd::prelude::*;

use crate::text::chars_of;

verus! {

/// Lexicographic order on character sequences by code point. This is the
/// order of `String`'s `Ord`, since UTF-8 keeps code-point order byte by byte.
pub open spec fn seq_lt(a: Seq<char>, b: Seq<char>) -> bool
    decreases a.len(),
{
    if a.len() == 0 {
        b.len() > 0
    } else if b.len() == 0 {
        false
    } else if a[0] != b[0] {
        a[0] < b[0]
    } else {
        seq_lt(a.drop_first(), b.drop_first())
    }
}

/// No sequence is below itself.
pub proof fn lemma_lt_irreflexive(a: Seq<char>)
    ensures
        !seq_lt(a, a),
    decreases a.len(),
{
    if a.len() > 0 {
        lemma_lt_irreflexive(a.drop_first());
    }
}

/// The order is transitive.
pub proof fn lemma_lt_transitive(a: Seq<char>, b: Seq<char>, c: Seq<char>)
    requires
        seq_lt(a, b),
        seq_lt(b, c),
    ensures
        seq_lt(a, c),
    decreases a.len(),
{
    if a.len() > 0 && a[0] == b[0] && b[0] == c[0] {
        lemma_lt_transitive(a.drop_first(), b.drop_first(), c.drop_first());
    }
}

/// Two different sequences are ordered one way or the other.
pub proof fn lemma_lt_total(a: Seq<char>, b: Seq<char>)
    requires
        a != b,
    ensures
        seq_lt(a, b) || seq_lt(b, a),
    decreases a.len(),
{
    if a.len() == 0 {
        assert(b.len() > 0) by {
            if b.len() == 0 {
                assert(a =~= b);
            }
        }
    } else if b.len() > 0 && a[0] == b[0] {
        if a.drop_first() == b.drop_first() {
            assert(a.drop_first().len() == b.drop_first().len());
            assert(a =~= b) by {
                assert forall|i: int| 0 <= i < a.len() implies a[i] == b[i] by {
                    if i > 0 {
                        assert(a[i] == a.drop_first()[i - 1]);
                        assert(b[i] == b.drop_first()[i - 1]);
                    }
                }
            }
        }
        lemma_lt_total(a.drop_first(), b.drop_first());
    }
}

/// Whether `a` comes before `b` in [`seq_lt`].
fn key_less(a: &Vec<char>, b: &Vec<char>) -> (r: bool)
    ensures
        r == seq_lt(a@, b@),
{
    let mut i: usize = 0;
    assert(a@.skip(0) =~= a@ && b@.skip(0) =~= b@);
    while i < a.len() && i < b.len() && a[i] == b[i]
        invariant
            i <= a.len(),
            i <= b.len(),
            seq_lt(a@, b@) == seq_lt(a@.skip(i as int), b@.skip(i as int)),
        decreases a.len() - i,
    {
        assert(a@.skip(i as int).drop_first() =~= a@.skip(i + 1));
        assert(b@.skip(i as int).drop_first() =~= b@.skip(i + 1));
        i = i + 1;
    }
    if i == a.len() {
        i < b.len()
    } else if i == b.len() {
        false
    } else {
        a[i] < b[i]
    }
}

/// Whether `a` and `b` hold the same characters.
fn key_equal(a: &Vec<char>, b: &Vec<char>) -> (r: bool)
    ensures
        r == (a@ == b@),
{
    let lt = key_less(a, b);
    let gt = key_less(b, a);
    proof {
        lemma_lt_irreflexive(a@);
        if a@ != b@ {
            lemma_lt_total(a@, b@);
        }
    }
    !lt && !gt
}

/// Whether the keys of `ps` ascend strictly.
pub open spec fn keys_sorted(ps: Seq<(Seq<char>, Seq<char>)>) -> bool {
    forall|i: int, j: int| 0 <= i < j < ps.len() ==> seq_lt(#[trigger] ps[i].0, #[trigger] ps[j].0)
}

/// Whether `k` is the key of some pair of `ps`.
pub open spec fn has_key(ps: Seq<(Seq<char>, Seq<char>)>, k: Seq<char>) -> bool {
    exists|i: int| 0 <= i < ps.len() && #[trigger] ps[i].0 == k
}

/// An index of `ps` whose pair has the key `k`, where there is one.
pub open spec fn key_index(ps: Seq<(Seq<char>, Seq<char>)>, k: Seq<char>) -> int {
    choose|i: int| 0 <= i < ps.len() && #[trigger] ps[i].0 == k
}

/// The map that the pairs `ps` describe.
pub open spec fn pairs_map(ps: Seq<(Seq<char>, Seq<char>)>) -> Map<Seq<char>, Seq<char>> {
    Map::new(|k: Seq<char>| has_key(ps, k), |k: Seq<char>| ps[key_index(ps, k)].1)
}

/// In sorted pairs each key occurs once, so the map gives each key its own value.
pub proof fn lemma_pairs_map(ps: Seq<(Seq<char>, Seq<char>)>)
    requires
        keys_sorted(ps),
    ensures
        forall|i: int|
            0 <= i < ps.len() ==> #[trigger] pairs_map(ps).contains_key(ps[i].0) && pairs_map(
                ps,
            )[ps[i].0] == ps[i].1,
        forall|k: Seq<char>| #[trigger] pairs_map(ps).contains_key(k) <==> has_key(ps, k),
{
    assert forall|i: int| 0 <= i < ps.len() implies #[trigger] pairs_map(ps).contains_key(ps[i].0)
        && pairs_map(ps)[ps[i].0] == ps[i].1 by {
        let k = ps[i].0;
        assert(has_key(ps, k));
        let j = key_index(ps, k);
        if j < i {
            assert(seq_lt(ps[j].0, ps[i].0));
            lemma_lt_irreflexive(k);
        } else if i < j {
            assert(seq_lt(ps[i].0, ps[j].0));
            lemma_lt_irreflexive(k);
        }
    }
}

/// Placing `(k, v)` at its place in sorted pairs keeps them sorted and
/// inserts `k` into the map they describe.
pub proof fn lemma_pairs_insert(ps: Seq<(Seq<char>, Seq<char>)>, p: int, k: Seq<char>, v: Seq<char>)
    requires
        keys_sorted(ps),
        0 <= p <= ps.len(),
        forall|i: int| 0 <= i < p ==> seq_lt(#[trigger] ps[i].0, k),
        forall|i: int| p <= i < ps.len() ==> seq_lt(k, #[trigger] ps[i].0),
    ensures
        keys_sorted(ps.insert(p, (k, v))),
        pairs_map(ps.insert(p, (k, v))) == pairs_map(ps).insert(k, v),
{
    let ps2 = ps.insert(p, (k, v));
    assert forall|i: int, j: int| 0 <= i < j < ps2.len() implies seq_lt(
        #[trigger] ps2[i].0,
        #[trigger] ps2[j].0,
    ) by {
        if j < p {
        } else if j == p {
        } else if i < p {
            lemma_lt_transitive(ps[i].0, k, ps[j - 1].0);
        } else if i == p {
        } else {
            assert(seq_lt(ps[i - 1].0, ps[j - 1].0));
        }
    }
    lemma_pairs_map(ps);
    lemma_pairs_map(ps2);
    let m1 = pairs_map(ps).insert(k, v);
    let m2 = pairs_map(ps2);
    assert forall|q: Seq<char>| #[trigger] m2.contains_key(q) <==> m1.contains_key(q) by {
        if has_key(ps2, q) {
            let i = choose|i: int| 0 <= i < ps2.len() && #[trigger] ps2[i].0 == q;
            if i < p {
                assert(ps[i].0 == q);
            } else if i > p {
                assert(ps[i - 1].0 == q);
            }
        }
        if has_key(ps, q) {
            let i = choose|i: int| 0 <= i < ps.len() && #[trigger] ps[i].0 == q;
            if i < p {
                assert(ps2[i].0 == q);
            } else {
                assert(ps2[i + 1].0 == q);
            }
        }
        if q == k {
            assert(ps2[p].0 == q);
        }
    }
    assert forall|q: Seq<char>| #[trigger] m2.contains_key(q) implies m2[q] == m1[q] by {
        if q == k {
            assert(ps2[p].0 == k);
        } else {
            let i = choose|i: int| 0 <= i < ps.len() && #[trigger] ps[i].0 == q;
            if i < p {
                assert(ps2[i] == ps[i]);
            } else {
                assert(ps2[i + 1] == ps[i]);
            }
        }
    }
    assert(m2 =~= m1);
}

/// Giving the pair at `p` a new value keeps the pairs sorted and maps its key
/// to that value.
pub proof fn lemma_pairs_update(ps: Seq<(Seq<char>, Seq<char>)>, p: int, v: Seq<char>)
    requires
        keys_sorted(ps),
        0 <= p < ps.len(),
    ensures
        keys_sorted(ps.update(p, (ps[p].0, v))),
        pairs_map(ps.update(p, (ps[p].0, v))) == pairs_map(ps).insert(ps[p].0, v),
{
    let k = ps[p].0;
    let ps2 = ps.update(p, (k, v));
    assert forall|i: int, j: int| 0 <= i < j < ps2.len() implies seq_lt(
        #[trigger] ps2[i].0,
        #[trigger] ps2[j].0,
    ) by {
        assert(ps2[i].0 == ps[i].0 && ps2[j].0 == ps[j].0);
    }
    lemma_pairs_map(ps);
    lemma_pairs_map(ps2);
    let m1 = pairs_map(ps).insert(k, v);
    let m2 = pairs_map(ps2);
    assert forall|q: Seq<char>| #[trigger] m2.contains_key(q) <==> m1.contains_key(q) by {
        if has_key(ps2, q) {
            let i = choose|i: int| 0 <= i < ps2.len() && #[trigger] ps2[i].0 == q;
            assert(ps[i].0 == q);
        }
        if has_key(ps, q) {
            let i = choose|i: int| 0 <= i < ps.len() && #[trigger] ps[i].0 == q;
            assert(ps2[i].0 == q);
        }
        if q == k {
            assert(ps2[p].0 == q);
        }
    }
    assert forall|q: Seq<char>| #[trigger] m2.contains_key(q) implies m2[q] == m1[q] by {
        if q == k {
            assert(ps2[p].0 == k);
        } else {
            let i = choose|i: int| 0 <= i < ps.len() && #[trigger] ps[i].0 == q;
            assert(ps2[i] == ps[i]);
        }
    }
    assert(m2 =~= m1);
}

/// Dropping the pair at `p` keeps the pairs sorted and removes its key from the map.
pub proof fn lemma_pairs_remove(ps: Seq<(Seq<char>, Seq<char>)>, p: int)
    requires
        keys_sorted(ps),
        0 <= p < ps.len(),
    ensures
        keys_sorted(ps.remove(p)),
        pairs_map(ps.remove(p)) == pairs_map(ps).remove(ps[p].0),
{
    let k = ps[p].0;
    let ps2 = ps.remove(p);
    assert forall|i: int, j: int| 0 <= i < j < ps2.len() implies seq_lt(
        #[trigger] ps2[i].0,
        #[trigger] ps2[j].0,
    ) by {
        if j < p {
        } else if i < p {
            assert(seq_lt(ps[i].0, ps[j + 1].0));
        } else {
            assert(seq_lt(ps[i + 1].0, ps[j + 1].0));
        }
    }
    lemma_pairs_map(ps);
    lemma_pairs_map(ps2);
    let m1 = pairs_map(ps).remove(k);
    let m2 = pairs_map(ps2);
    assert forall|q: Seq<char>| #[trigger] m2.contains_key(q) <==> m1.contains_key(q) by {
        if has_key(ps2, q) {
            let i = choose|i: int| 0 <= i < ps2.len() && #[trigger] ps2[i].0 == q;
            if i < p {
                assert(ps[i].0 == q);
                assert(seq_lt(ps[i].0, ps[p].0));
            } else {
                assert(ps[i + 1].0 == q);
                assert(seq_lt(ps[p].0, ps[i + 1].0));
            }
            if q == k {
                lemma_lt_irreflexive(k);
            }
        }
        if has_key(ps, q) && q != k {
            let i = choose|i: int| 0 <= i < ps.len() && #[trigger] ps[i].0 == q;
            if i < p {
                assert(ps2[i].0 == q);
            } else {
                assert(i != p);
                assert(ps2[i - 1].0 == q);
            }
        }
    }
    assert forall|q: Seq<char>| #[trigger] m2.contains_key(q) implies m2[q] == m1[q] by {
        let i = choose|i: int| 0 <= i < ps.len() && #[trigger] ps[i].0 == q;
        if i < p {
            assert(ps2[i] == ps[i]);
        } else {
            assert(i != p);
            assert(ps2[i - 1] == ps[i]);
        }
    }
    assert(m2 =~= m1);
}

/// Past the last key below `k`, every key lies above `k` unless it is `k`,
/// which only the first of them may be.
pub proof fn lemma_bound(ps: Seq<(Seq<char>, Seq<char>)>, p: int, k: Seq<char>)
    requires
        keys_sorted(ps),
        0 <= p <= ps.len(),
        forall|i: int| 0 <= i < p ==> seq_lt(#[trigger] ps[i].0, k),
        forall|i: int| p <= i < ps.len() ==> !seq_lt(#[trigger] ps[i].0, k),
    ensures
        has_key(ps, k) <==> (p < ps.len() && ps[p].0 == k),
        (p == ps.len() || ps[p].0 != k) ==> forall|i: int|
            p <= i < ps.len() ==> seq_lt(k, #[trigger] ps[i].0),
{
    if has_key(ps, k) {
        let i = choose|i: int| 0 <= i < ps.len() && #[trigger] ps[i].0 == k;
        lemma_lt_irreflexive(k);
        if i > p {
            assert(seq_lt(ps[p].0, ps[i].0));
            if ps[p].0 != k {
                lemma_lt_total(ps[p].0, k);
            }
        }
    }
    if p == ps.len() || ps[p].0 != k {
        assert forall|i: int| p <= i < ps.len() implies seq_lt(k, #[trigger] ps[i].0) by {
            lemma_lt_total(ps[p].0, k);
            if i > p {
                assert(seq_lt(ps[p].0, ps[i].0));
                lemma_lt_transitive(k, ps[p].0, ps[i].0);
            }
        }
    }
}

/// Entries by the characters of key and value.
pub open spec fn entries_view(v: Seq<(String, String)>) -> Seq<(Seq<char>, Seq<char>)> {
    v.map_values(|e: (String, String)| (e.0@, e.1@))
}

/// A map from `String` keys to `String` values, its entries held in
/// ascending key order.
pub struct StringMap {
    entries: Vec<(String, String)>,
}

impl StringMap {
    /// The entries, by the characters of key and value, in the order held.
    pub closed spec fn pairs(&self) -> Seq<(Seq<char>, Seq<char>)> {
        entries_view(self.entries@)
    }

    /// The map's invariant: its keys ascend strictly.
    pub open spec fn wf(&self) -> bool {
        keys_sorted(self.pairs())
    }
}

impl StringMap {
    /// An empty map.
    pub fn new() -> (m: StringMap)
        ensures
            m.wf(),
            m.pairs().len() == 0,
            m@ == Map::<Seq<char>, Seq<char>>::empty(),
    {
        let m = StringMap { entries: Vec::new() };
        assert(m@ =~= Map::<Seq<char>, Seq<char>>::empty());
        m
    }

    /// The number of entries.
    pub fn len(&self) -> (n: usize)
        ensures
            n == self.pairs().len(),
    {
        self.entries.len()
    }

    /// Whether the map holds no entry.
    pub fn is_empty(&self) -> (r: bool)
        requires
            self.wf(),
        ensures
            r == (self.pairs().len() == 0),
            r == (self@ == Map::<Seq<char>, Seq<char>>::empty()),
    {
        proof {
            lemma_pairs_map(self.pairs());
            if self.pairs().len() == 0 {
                assert(self@ =~= Map::<Seq<char>, Seq<char>>::empty());
            } else {
                assert(self@.contains_key(self.pairs()[0].0));
            }
        }
        self.entries.len() == 0
    }

    /// The key of the entry at `i`, in ascending key order.
    pub fn key_at(&self, i: usize) -> (k: &String)
        requires
            i < self.pairs().len(),
        ensures
            k@ == self.pairs()[i as int].0,
    {
        &self.entries[i].0
    }

    /// The value of the entry at `i`, in ascending key order.
    pub fn value_at(&self, i: usize) -> (v: &String)
        requires
            i < self.pairs().len(),
        ensures
            v@ == self.pairs()[i as int].1,
    {
        &self.entries[i].1
    }

    /// The entries, in ascending key order.
    pub fn to_vec(&self) -> (v: Vec<(String, String)>)
        ensures
            entries_view(v@) == self.pairs(),
    {
        let mut v: Vec<(String, String)> = Vec::new();
        let mut i: usize = 0;
        while i < self.entries.len()
            invariant
                i <= self.entries.len(),
                v.len() == i,
                entries_view(v@) == self.pairs().take(i as int),
            decreases self.entries.len() - i,
        {
            let ghost old_v = v@;
            let k = self.entries[i].0.clone();
            let val = self.entries[i].1.clone();
            v.push((k, val));
            assert forall|j: int| 0 <= j <= i implies #[trigger] entries_view(v@)[j] == self.pairs().take(i + 1)[j] by {
                if j < i {
                    assert(v@[j] == old_v[j]);
                }
            }
            assert(entries_view(v@) =~= self.pairs().take(i + 1));
            i = i + 1;
        }
        assert(self.pairs().take(i as int) =~= self.pairs());
        v
    }

    /// The number of entries whose keys come before `k`.
    fn lower_bound(&self, k: &Vec<char>) -> (p: usize)
        requires
            self.wf(),
        ensures
            p <= self.pairs().len(),
            forall|i: int| 0 <= i < p ==> seq_lt(#[trigger] self.pairs()[i].0, k@),
            forall|i: int| p <= i < self.pairs().len() ==> !seq_lt(#[trigger] self.pairs()[i].0, k@),
    {
        let ghost ps = self.pairs();
        let mut lo: usize = 0;
        let mut hi: usize = self.entries.len();
        while lo < hi
            invariant
                lo <= hi <= self.entries.len() == ps.len(),
                ps == self.pairs(),
                keys_sorted(ps),
                forall|i: int| 0 <= i < lo ==> seq_lt(#[trigger] ps[i].0, k@),
                forall|i: int| hi <= i < ps.len() ==> !seq_lt(#[trigger] ps[i].0, k@),
            decreases hi - lo,
        {
            let mid = lo + (hi - lo) / 2;
            let key_chars = chars_of(self.entries[mid].0.as_str());
            if key_less(&key_chars, k) {
                assert forall|i: int| 0 <= i < mid + 1 implies seq_lt(#[trigger] ps[i].0, k@) by {
                    if i < mid {
                        lemma_lt_transitive(ps[i].0, ps[mid as int].0, k@);
                    }
                }
                lo = mid + 1;
            } else {
                assert forall|i: int| mid <= i < ps.len() implies !seq_lt(#[trigger] ps[i].0, k@) by {
                    if i > mid && seq_lt(ps[i].0, k@) {
                        lemma_lt_transitive(ps[mid as int].0, ps[i].0, k@);
                    }
                }
                hi = mid;
            }
        }
        lo
    }

    /// The value that `key` maps to, if any.
    pub fn get(&self, key: &str) -> (r: Option<&String>)
        requires
            self.wf(),
        ensures
            match r {
                Some(v) => self@.contains_key(key@) && v@ == self@[key@],
                None => !self@.contains_key(key@),
            },
    {
        let k = chars_of(key);
        let p = self.lower_bound(&k);
        proof {
            lemma_bound(self.pairs(), p as int, k@);
            lemma_pairs_map(self.pairs());
        }
        if p < self.entries.len() && key_equal(&chars_of(self.entries[p].0.as_str()), &k) {
            Some(&self.entries[p].1)
        } else {
            None
        }
    }

    /// Whether `key` is a key of the map.
    pub fn contains_key(&self, key: &str) -> (r: bool)
        requires
            self.wf(),
        ensures
            r == self@.contains_key(key@),
    {
        self.get(key).is_some()
    }

    /// Maps `key` to `value`, giving back the value it replaced, if any.
    pub fn insert(&mut self, key: String, value: String) -> (r: Option<String>)
        requires
            old(self).wf(),
        ensures
            final(self).wf(),
            final(self)@ == old(self)@.insert(key@, value@),
            match r {
                Some(v) => old(self)@.contains_key(key@) && v@ == old(self)@[key@],
                None => !old(self)@.contains_key(key@),
            },
    {
        let k = chars_of(key.as_str());
        let p = self.lower_bound(&k);
        let ghost ps = self.pairs();
        proof {
            lemma_bound(ps, p as int, k@);
            lemma_pairs_map(ps);
        }
        if p < self.entries.len() && key_equal(&chars_of(self.entries[p].0.as_str()), &k) {
            let old_value = self.entries[p].1.clone();
            self.entries.set(p, (key, value));
            proof {
                lemma_pairs_update(ps, p as int, value@);
                assert(self.pairs() =~= ps.update(p as int, (ps[p as int].0, value@)));
            }
            Some(old_value)
        } else {
            self.entries.insert(p, (key, value));
            proof {
                lemma_pairs_insert(ps, p as int, k@, value@);
                assert(self.pairs() =~= ps.insert(p as int, (k@, value@)));
            }
            None
        }
    }

    /// Removes `key`, giving back the value it had, if any.
    pub fn remove(&mut self, key: &str) -> (r: Option<String>)
        requires
            old(self).wf(),
        ensures
            final(self).wf(),
            final(self)@ == old(self)@.remove(key@),
            match r {
                Some(v) => old(self)@.contains_key(key@) && v@ == old(self)@[key@],
                None => !old(self)@.contains_key(key@),
            },
    {
        let k = chars_of(key);
        let p = self.lower_bound(&k);
        let ghost ps = self.pairs();
        proof {
            lemma_bound(ps, p as int, k@);
            lemma_pairs_map(ps);
        }
        if p < self.entries.len() && key_equal(&chars_of(self.entries[p].0.as_str()), &k) {
            let (_, v) = self.entries.remove(p);
            proof {
                lemma_pairs_remove(ps, p as int);
                assert(self.pairs() =~= ps.remove(p as int));
            }
            Some(v)
        } else {
            proof {
                assert(!old(self)@.contains_key(key@));
                assert(old(self)@.remove(key@) =~= old(self)@);
            }
            None
        }
    }
}

impl View for StringMap {
    type V = Map<Seq<char>, Seq<char>>;

    open spec fn view(&self) -> Map<Seq<char>, Seq<char>> {
        pairs_map(self.pairs())
    }
}

} // verus!
