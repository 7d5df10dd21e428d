//! The participant → cents mapping used throughout the engine.
//!
//! The mapping is kept as an insertion-ordered sequence of entries with
//! pairwise-distinct keys. The order is significant: proportional
//! allocation walks the entries in first-appearance order, so that the
//! participant absorbing rounding drift is deterministic.

use vstd::prelude::*;

use crate::user::User;

verus! {

/// One entry of the abstract mapping: a participant name and cents.
pub type Entry = (Seq<char>, int);

/// Whether some entry of `es` carries the key `k`.
pub open spec fn contains_key(es: Seq<Entry>, k: Seq<char>) -> bool {
    exists|i: int| 0 <= i < es.len() && es[i].0 == k
}

/// The value of the first entry at or after position `j` whose key is
/// `k`; `0` when there is none.
pub open spec fn value_from(es: Seq<Entry>, j: int, k: Seq<char>) -> int
    decreases es.len() - j,
{
    if j < 0 || j >= es.len() {
        0
    } else if es[j].0 == k {
        es[j].1
    } else {
        value_from(es, j + 1, k)
    }
}

/// The value stored under `k`, when `k` is present.
pub open spec fn value_of(es: Seq<Entry>, k: Seq<char>) -> int {
    value_from(es, 0, k)
}

/// The value stored under `k`, or `0` when `k` is absent.
pub open spec fn val0(es: Seq<Entry>, k: Seq<char>) -> int {
    if contains_key(es, k) {
        value_of(es, k)
    } else {
        0
    }
}

/// The sum of all values from position `j` on.
pub open spec fn total_from(es: Seq<Entry>, j: int) -> int
    decreases es.len() - j,
{
    if j < 0 || j >= es.len() {
        0
    } else {
        es[j].1 + total_from(es, j + 1)
    }
}

/// The sum of all values of the mapping.
pub open spec fn total_of(es: Seq<Entry>) -> int {
    total_from(es, 0)
}

/// Keys are pairwise distinct: each participant has one entry.
pub open spec fn distinct_keys(es: Seq<Entry>) -> bool {
    forall|i: int, j: int| 0 <= i < j < es.len() ==> es[i].0 != es[j].0
}

/// Every value is non-negative.
pub open spec fn all_nonneg(es: Seq<Entry>) -> bool {
    forall|i: int| 0 <= i < es.len() ==> es[i].1 >= 0
}

/// The mapping after adding `v` cents under `k`: the entry for `k` is
/// increased when present, appended otherwise.
pub open spec fn upserted(es: Seq<Entry>, k: Seq<char>, v: int) -> Seq<Entry> {
    if contains_key(es, k) {
        Seq::new(es.len(), |i: int| if es[i].0 == k { (k, es[i].1 + v) } else { es[i] })
    } else {
        es.push((k, v))
    }
}

/// The mapping read as an unordered map from name to cents.
pub open spec fn as_map(es: Seq<Entry>) -> Map<Seq<char>, int> {
    Map::new(|k: Seq<char>| contains_key(es, k), |k: Seq<char>| value_of(es, k))
}

/// The first match for `k` at or after `j` sits at `i`, so the walk
/// from `j` yields the value stored at `i`.
pub proof fn lemma_value_from_at(es: Seq<Entry>, j: int, i: int, k: Seq<char>)
    requires
        0 <= j <= i < es.len(),
        es[i].0 == k,
        forall|m: int| j <= m < i ==> es[m].0 != k,
    ensures
        value_from(es, j, k) == es[i].1,
    decreases i - j,
{
    if j < i {
        lemma_value_from_at(es, j + 1, i, k);
    }
}

/// A key matched by no entry at or after `j` reads as `0` from `j`.
pub proof fn lemma_value_from_absent(es: Seq<Entry>, j: int, k: Seq<char>)
    requires
        forall|m: int| j <= m < es.len() ==> es[m].0 != k,
    ensures
        value_from(es, j, k) == 0,
    decreases es.len() - j,
{
    if 0 <= j && j < es.len() {
        lemma_value_from_absent(es, j + 1, k);
    }
}

/// With distinct keys, the entry at position `i` is what its key reads.
pub proof fn lemma_index_value(es: Seq<Entry>, i: int)
    requires
        distinct_keys(es),
        0 <= i < es.len(),
    ensures
        contains_key(es, es[i].0),
        value_of(es, es[i].0) == es[i].1,
{
    lemma_value_from_at(es, 0, i, es[i].0);
}

/// How one upsert changes each lookup: the chosen key gains `v`, every
/// other key is untouched.
pub proof fn lemma_upserted_lookup(es: Seq<Entry>, k: Seq<char>, v: int, k2: Seq<char>)
    requires
        distinct_keys(es),
    ensures
        contains_key(upserted(es, k, v), k2) <==> (contains_key(es, k2) || k2 == k),
        val0(upserted(es, k, v), k2) == val0(es, k2) + if k2 == k {
            v
        } else {
            0
        },
{
    let up = upserted(es, k, v);
    if contains_key(es, k) {
        let i0 = choose|i: int| 0 <= i < es.len() && es[i].0 == k;
        assert(forall|m: int| 0 <= m < es.len() ==> up[m].0 == es[m].0);
        if k2 == k {
            assert(forall|m: int| 0 <= m < i0 ==> up[m].0 != k);
            lemma_value_from_at(up, 0, i0, k);
            lemma_index_value(es, i0);
        } else {
            if contains_key(es, k2) {
                let i1 = choose|i: int| 0 <= i < es.len() && es[i].0 == k2;
                assert(forall|m: int| 0 <= m < i1 ==> es[m].0 != k2);
                lemma_value_from_at(es, 0, i1, k2);
                lemma_value_from_at(up, 0, i1, k2);
                assert(up[i1] == es[i1]);
            } else {
                lemma_value_from_absent(es, 0, k2);
                lemma_value_from_absent(up, 0, k2);
            }
        }
    } else {
        assert(up == es.push((k, v)));
        assert(forall|m: int| 0 <= m < es.len() ==> up[m] == es[m]);
        if k2 == k {
            assert(up[es.len() as int].0 == k);
            assert(forall|m: int| 0 <= m < es.len() ==> up[m].0 != k);
            lemma_value_from_at(up, 0, es.len() as int, k);
        } else {
            if contains_key(es, k2) {
                let i1 = choose|i: int| 0 <= i < es.len() && es[i].0 == k2;
                assert(forall|m: int| 0 <= m < i1 ==> es[m].0 != k2);
                lemma_value_from_at(es, 0, i1, k2);
                lemma_value_from_at(up, 0, i1, k2);
            } else {
                lemma_value_from_absent(es, 0, k2);
                lemma_value_from_absent(up, 0, k2);
            }
        }
    }
}

/// Upserting keeps keys pairwise distinct.
pub proof fn lemma_upserted_distinct(es: Seq<Entry>, k: Seq<char>, v: int)
    requires
        distinct_keys(es),
    ensures
        distinct_keys(upserted(es, k, v)),
{
    let up = upserted(es, k, v);
    if contains_key(es, k) {
        assert(forall|m: int| 0 <= m < es.len() ==> up[m].0 == es[m].0);
    } else {
        assert(forall|m: int| 0 <= m < es.len() ==> up[m].0 == es[m].0);
        assert(up[es.len() as int].0 == k);
    }
}

/// Upserting `v` raises the total by exactly `v`.
pub proof fn lemma_upserted_total(es: Seq<Entry>, k: Seq<char>, v: int)
    requires
        distinct_keys(es),
    ensures
        total_of(upserted(es, k, v)) == total_of(es) + v,
{
    if contains_key(es, k) {
        lemma_updated_total_from(es, k, v, 0);
    } else {
        lemma_pushed_total_from(es, (k, v), 0);
    }
}

proof fn lemma_updated_total_from(es: Seq<Entry>, k: Seq<char>, v: int, j: int)
    requires
        distinct_keys(es),
        contains_key(es, k),
        0 <= j <= es.len(),
    ensures
        total_from(upserted(es, k, v), j) == total_from(es, j) + if exists|m: int|
            j <= m < es.len() && es[m].0 == k {
            v
        } else {
            0
        },
    decreases es.len() - j,
{
    let up = upserted(es, k, v);
    assert(up.len() == es.len());
    if j < es.len() {
        lemma_updated_total_from(es, k, v, j + 1);
        if es[j].0 == k {
            assert(up[j] == (k, es[j].1 + v));
            assert(forall|m: int| j + 1 <= m < es.len() ==> es[m].0 != k);
        } else {
            assert(up[j] == es[j]);
        }
    }
}

proof fn lemma_pushed_total_from(es: Seq<Entry>, p: Entry, j: int)
    requires
        0 <= j <= es.len(),
    ensures
        total_from(es.push(p), j) == total_from(es, j) + p.1,
    decreases es.len() - j,
{
    let up = es.push(p);
    if j < es.len() {
        lemma_pushed_total_from(es, p, j + 1);
        assert(up[j] == es[j]);
    } else {
        assert(up[j] == p);
        assert(total_from(up, j + 1) == 0);
        assert(total_from(es, j) == 0);
    }
}

/// Upserting a non-negative value keeps all values non-negative.
pub proof fn lemma_upserted_nonneg(es: Seq<Entry>, k: Seq<char>, v: int)
    requires
        all_nonneg(es),
        v >= 0,
    ensures
        all_nonneg(upserted(es, k, v)),
{
    let up = upserted(es, k, v);
    if contains_key(es, k) {
        assert forall|i: int| 0 <= i < up.len() implies up[i].1 >= 0 by {
            assert(es[i].1 >= 0);
        }
    } else {
        assert forall|i: int| 0 <= i < up.len() implies up[i].1 >= 0 by {
            if i < es.len() {
                assert(es[i].1 >= 0);
            }
        }
    }
}

/// With non-negative values, every suffix sum is non-negative.
pub proof fn lemma_total_from_nonneg(es: Seq<Entry>, j: int)
    requires
        all_nonneg(es),
    ensures
        total_from(es, j) >= 0,
    decreases es.len() - j,
{
    if 0 <= j && j < es.len() {
        lemma_total_from_nonneg(es, j + 1);
    }
}

/// With non-negative values, one entry never exceeds the total.
pub proof fn lemma_entry_le_total(es: Seq<Entry>, i: int)
    requires
        all_nonneg(es),
        0 <= i < es.len(),
    ensures
        es[i].1 <= total_of(es),
{
    lemma_entry_le_total_from(es, i, 0);
}

proof fn lemma_entry_le_total_from(es: Seq<Entry>, i: int, j: int)
    requires
        all_nonneg(es),
        0 <= j <= i < es.len(),
    ensures
        es[i].1 <= total_from(es, j),
    decreases i - j,
{
    if j == i {
        lemma_total_from_nonneg(es, j + 1);
    } else {
        lemma_entry_le_total_from(es, i, j + 1);
    }
}

/// With non-negative values and distinct keys, every lookup is at most
/// the total.
pub proof fn lemma_value_le_total(es: Seq<Entry>, k: Seq<char>)
    requires
        distinct_keys(es),
        all_nonneg(es),
    ensures
        0 <= val0(es, k),
        val0(es, k) <= total_of(es),
    {
        lemma_total_from_nonneg(es, 0);
        if contains_key(es, k) {
            let i0 = choose|i: int| 0 <= i < es.len() && es[i].0 == k;
            lemma_value_from_at(es, 0, i0, k);
            lemma_entry_le_total(es, i0);
        }
    }

/// The ordered participant → cents mapping.
#[derive(Debug)]
pub struct UserAmounts {
    entries: Vec<(User, i64)>,
}

impl View for UserAmounts {
    type V = Seq<Entry>;

    closed spec fn view(&self) -> Seq<Entry> {
        Seq::new(self.entries@.len(), |i: int| (self.entries@[i].0@, self.entries@[i].1 as int))
    }
}

impl UserAmounts {
    /// Keys are pairwise distinct. Every mapping the library hands out
    /// satisfies this.
    pub open spec fn wf(&self) -> bool {
        distinct_keys(self@)
    }

    /// The empty mapping.
    pub fn new() -> (r: UserAmounts)
        ensures
            r@ == Seq::<Entry>::empty(),
            r.wf(),
    {
        let r = UserAmounts { entries: Vec::new() };
        proof {
            assert(r@ =~= Seq::<Entry>::empty());
        }
        r
    }

    /// How many participants the mapping holds.
    pub fn len(&self) -> (r: usize)
        ensures
            r == self@.len(),
    {
        self.entries.len()
    }

    /// The participant of the entry at position `i`.
    pub fn key_at(&self, i: usize) -> (r: &User)
        requires
            i < self@.len(),
        ensures
            r@ == self@[i as int].0,
    {
        &self.entries[i].0
    }

    /// The cents of the entry at position `i`.
    pub fn value_at(&self, i: usize) -> (r: i64)
        requires
            i < self@.len(),
        ensures
            r as int == self@[i as int].1,
    {
        self.entries[i].1
    }

    /// The position of the entry carrying the given participant.
    fn find_index(&self, user: &User) -> (r: Option<usize>)
        ensures
            match r {
                Some(i) => i < self@.len() && self@[i as int].0 == user@ && forall|m: int|
                    0 <= m < i ==> self@[m].0 != user@,
                None => !contains_key(self@, user@),
            },
    {
        let n = self.entries.len();
        for i in 0..n
            invariant
                n == self@.len(),
                forall|m: int| 0 <= m < i ==> self@[m].0 != user@,
        {
            if self.entries[i].0.same_as(user) {
                return Some(i);
            }
        }
        None
    }

    /// Looks a participant up by identity.
    pub fn get(&self, user: &User) -> (r: Option<i64>)
        ensures
            match r {
                Some(v) => contains_key(self@, user@) && v as int == value_of(self@, user@),
                None => !contains_key(self@, user@),
            },
    {
        match self.find_index(user) {
            Some(i) => {
                proof {
                    lemma_value_from_at(self@, 0, i as int, user@);
                }
                Some(self.entries[i].1)
            },
            None => None,
        }
    }

    /// Adds `amount` cents under the given participant: increases the
    /// present entry, or appends a new one.
    pub fn upsert(&mut self, user: &User, amount: i64)
        requires
            old(self).wf(),
            contains_key(old(self)@, user@) ==> i64::MIN <= value_of(old(self)@, user@)
                + amount <= i64::MAX,
        ensures
            final(self)@ == upserted(old(self)@, user@, amount as int),
            final(self).wf(),
    {
        proof {
            lemma_upserted_distinct(old(self)@, user@, amount as int);
        }
        match self.find_index(user) {
            Some(i) => {
                proof {
                    assert(contains_key(self@, user@));
                    lemma_value_from_at(self@, 0, i as int, user@);
                }
                let v = self.entries[i].1;
                self.entries[i] = (user.clone(), v + amount);
                proof {
                    let up = upserted(old(self)@, user@, amount as int);
                    assert forall|m: int| 0 <= m < self@.len() implies self@[m] == up[m] by {
                        if m != i as int {
                            assert(old(self)@[m].0 != user@);
                        }
                    }
                    assert(self@ =~~= up);
                }
            },
            None => {
                proof {
                    lemma_value_from_absent(self@, 0, user@);
                }
                self.entries.push((user.clone(), amount));
                proof {
                    assert(self@ =~~= upserted(old(self)@, user@, amount as int));
                }
            },
        }
    }
}

impl Clone for UserAmounts {
    /// The copy carries the same entries in the same order.
    fn clone(&self) -> (r: Self)
        ensures
            r@ == self@,
    {
        let n = self.entries.len();
        let mut entries: Vec<(User, i64)> = Vec::new();
        for i in 0..n
            invariant
                n == self.entries@.len(),
                entries@.len() == i,
                forall|m: int| 0 <= m < i ==> entries@[m].0@ == self.entries@[m].0@
                    && entries@[m].1 == self.entries@[m].1,
        {
            entries.push((self.entries[i].0.clone(), self.entries[i].1));
        }
        let r = UserAmounts { entries };
        proof {
            assert(r@ =~~= self@);
        }
        r
    }
}

} // verus!
