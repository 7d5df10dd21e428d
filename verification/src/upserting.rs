//! Aggregation merge: folding one participant → cents mapping into
//! another, summing on collision.

use vstd::prelude::*;

use crate::amounts::{
    all_nonneg, as_map, contains_key, distinct_keys, lemma_index_value, lemma_upserted_distinct,
    lemma_upserted_lookup, lemma_upserted_nonneg, lemma_upserted_total, lemma_value_le_total,
    total_of, upserted, val0, Entry, UserAmounts,
};

verus! {

/// `a` after upserting the first `i` entries of `b`, in order.
pub open spec fn merged_upto(a: Seq<Entry>, b: Seq<Entry>, i: int) -> Seq<Entry>
    decreases i,
{
    if i <= 0 {
        a
    } else {
        upserted(merged_upto(a, b, i - 1), b[i - 1].0, b[i - 1].1)
    }
}

/// `a` after upserting every entry of `b`, in order: the merge of the
/// two mappings, summing on collision.
pub open spec fn merged(a: Seq<Entry>, b: Seq<Entry>) -> Seq<Entry> {
    merged_upto(a, b, b.len() as int)
}

/// A merge keeps keys distinct, sums the totals, and reads, under each
/// key, the sum of what the two mappings read.
pub proof fn lemma_merged_upto(a: Seq<Entry>, b: Seq<Entry>, i: int)
    requires
        distinct_keys(a),
        distinct_keys(b),
        0 <= i <= b.len(),
    ensures
        distinct_keys(merged_upto(a, b, i)),
        total_of(merged_upto(a, b, i)) == total_of(a) + total_of(b.subrange(0, i)),
        forall|k: Seq<char>| #[trigger] val0(merged_upto(a, b, i), k) == val0(a, k) + val0(
            b.subrange(0, i),
            k,
        ),
        forall|k: Seq<char>| #[trigger] contains_key(merged_upto(a, b, i), k) <==> (contains_key(
            a,
            k,
        ) || contains_key(b.subrange(0, i), k)),
    decreases i,
{
    if i <= 0 {
        let pre = b.subrange(0, 0);
        assert(pre.len() == 0);
        assert forall|k: Seq<char>| #[trigger] val0(pre, k) == 0 && !contains_key(pre, k) by {
            crate::amounts::lemma_value_from_absent(pre, 0, k);
        }
    } else {
        lemma_merged_upto(a, b, i - 1);
        let m0 = merged_upto(a, b, i - 1);
        let m1 = merged_upto(a, b, i);
        let k0 = b[i - 1].0;
        let v0 = b[i - 1].1;
        lemma_upserted_distinct(m0, k0, v0);
        lemma_upserted_total(m0, k0, v0);
        let pre0 = b.subrange(0, i - 1);
        let pre1 = b.subrange(0, i);
        assert(pre1.last() == b[i - 1]);
        assert(pre1.drop_last() =~= pre0);
        // b's keys are distinct, so k0 does not occur before position i - 1.
        assert(forall|m: int| 0 <= m < i - 1 ==> pre1[m].0 != k0);
        assert forall|k: Seq<char>| #[trigger] val0(m1, k) == val0(a, k) + val0(pre1, k) by {
            lemma_upserted_lookup(m0, k0, v0, k);
            if k == k0 {
                crate::amounts::lemma_value_from_at(pre1, 0, i - 1, k0);
                crate::amounts::lemma_value_from_absent(pre0, 0, k0);
                assert(val0(pre1, k0) == v0);
                assert(val0(pre0, k0) == 0);
            } else {
                lemma_lookup_in_prefix(pre1, k);
                assert(val0(pre1, k) == val0(pre0, k));
            }
        }
        assert forall|k: Seq<char>| #[trigger] contains_key(m1, k) <==> (contains_key(a, k)
            || contains_key(pre1, k)) by {
            lemma_upserted_lookup(m0, k0, v0, k);
            if k != k0 {
                lemma_lookup_in_prefix(pre1, k);
            } else {
                assert(contains_key(pre1, k0));
            }
        }
        assert(total_of(pre1) == total_of(pre0) + v0) by {
            lemma_total_push_like(pre1);
        }
    }
}

/// Looking a key up in a sequence of entries whose last key differs
/// reads the same as in the sequence without that last entry.
proof fn lemma_lookup_in_prefix(es: Seq<Entry>, k: Seq<char>)
    requires
        es.len() > 0,
        es.last().0 != k,
    ensures
        val0(es, k) == val0(es.drop_last(), k),
        contains_key(es, k) <==> contains_key(es.drop_last(), k),
{
    let pre = es.drop_last();
    if contains_key(pre, k) {
        assert(contains_key(es, k));
        lemma_first_match(es, k);
        let f = first_match(es, k);
        crate::amounts::lemma_value_from_at(es, 0, f, k);
        crate::amounts::lemma_value_from_at(pre, 0, f, k);
    } else {
        if contains_key(es, k) {
            let i1 = choose|i: int| 0 <= i < es.len() && es[i].0 == k;
            assert(i1 == es.len() - 1 || pre[i1].0 == k);
            assert(false);
        }
        crate::amounts::lemma_value_from_absent(es, 0, k);
        crate::amounts::lemma_value_from_absent(pre, 0, k);
    }
}

/// The position of the first entry carrying `k`.
spec fn first_match(es: Seq<Entry>, k: Seq<char>) -> int {
    choose|i: int|
        0 <= i < es.len() && es[i].0 == k && forall|m: int| 0 <= m < i ==> es[m].0 != k
}

proof fn lemma_first_match(es: Seq<Entry>, k: Seq<char>)
    requires
        contains_key(es, k),
    ensures
        0 <= first_match(es, k) < es.len(),
        es[first_match(es, k)].0 == k,
        forall|m: int| 0 <= m < first_match(es, k) ==> es[m].0 != k,
    decreases es.len(),
{
    let i1 = choose|i: int| 0 <= i < es.len() && es[i].0 == k;
    lemma_exists_first(es, k, i1);
}

proof fn lemma_exists_first(es: Seq<Entry>, k: Seq<char>, i: int)
    requires
        0 <= i < es.len(),
        es[i].0 == k,
    ensures
        0 <= first_match(es, k) < es.len(),
        es[first_match(es, k)].0 == k,
        forall|m: int| 0 <= m < first_match(es, k) ==> es[m].0 != k,
    decreases i,
{
    if exists|m: int| 0 <= m < i && es[m].0 == k {
        let m0 = choose|m: int| 0 <= m < i && es[m].0 == k;
        lemma_exists_first(es, k, m0);
    } else {
        assert(0 <= i < es.len() && es[i].0 == k && forall|m: int| 0 <= m < i ==> es[m].0 != k);
    }
}

/// The total of a non-empty sequence of entries is the total of its
/// prefix plus its last value.
proof fn lemma_total_push_like(es: Seq<Entry>)
    requires
        es.len() > 0,
    ensures
        total_of(es) == total_of(es.drop_last()) + es.last().1,
{
    lemma_total_from_drop_last(es, 0);
}

proof fn lemma_total_from_drop_last(es: Seq<Entry>, j: int)
    requires
        es.len() > 0,
        0 <= j <= es.len() - 1,
    ensures
        crate::amounts::total_from(es, j) == crate::amounts::total_from(es.drop_last(), j)
            + es.last().1,
    decreases es.len() - j,
{
    if j < es.len() - 1 {
        lemma_total_from_drop_last(es, j + 1);
    } else {
        assert(crate::amounts::total_from(es, j + 1) == 0);
        assert(crate::amounts::total_from(es.drop_last(), j) == 0);
    }
}

/// Merging non-negative mappings yields a non-negative mapping.
pub proof fn lemma_merged_nonneg(a: Seq<Entry>, b: Seq<Entry>)
    requires
        distinct_keys(a),
        distinct_keys(b),
        all_nonneg(a),
        all_nonneg(b),
    ensures
        all_nonneg(merged(a, b)),
{
    let m = merged(a, b);
    lemma_merged_upto(a, b, b.len() as int);
    assert(b.subrange(0, b.len() as int) =~= b);
    assert forall|i: int| 0 <= i < m.len() implies m[i].1 >= 0 by {
        lemma_index_value(m, i);
        let k = m[i].0;
        assert(val0(m, k) == val0(a, k) + val0(b, k));
        lemma_value_le_total(a, k);
        lemma_value_le_total(b, k);
    }
}

/// Merging sources in either order into an empty target gives the same
/// mapping: under every key, the sum of what the sources read there.
pub proof fn lemma_merge_commutes(a: Seq<Entry>, b: Seq<Entry>)
    requires
        distinct_keys(a),
        distinct_keys(b),
    ensures
        as_map(merged(merged(Seq::<Entry>::empty(), a), b)) == as_map(
            merged(merged(Seq::<Entry>::empty(), b), a),
        ),
{
    let e = Seq::<Entry>::empty();
    let mab = merged(merged(e, a), b);
    let mba = merged(merged(e, b), a);
    lemma_merged_upto(e, a, a.len() as int);
    lemma_merged_upto(e, b, b.len() as int);
    assert(a.subrange(0, a.len() as int) =~= a);
    assert(b.subrange(0, b.len() as int) =~= b);
    lemma_merged_upto(merged(e, a), b, b.len() as int);
    lemma_merged_upto(merged(e, b), a, a.len() as int);
    assert forall|k: Seq<char>| #[trigger] contains_key(mab, k) <==> contains_key(mba, k) by {
        assert(contains_key(mab, k) <==> (contains_key(merged(e, a), k) || contains_key(b, k)));
        assert(contains_key(merged(e, a), k) <==> (contains_key(e, k) || contains_key(a, k)));
        assert(contains_key(mba, k) <==> (contains_key(merged(e, b), k) || contains_key(a, k)));
        assert(contains_key(merged(e, b), k) <==> (contains_key(e, k) || contains_key(b, k)));
    }
    assert forall|k: Seq<char>| contains_key(mab, k) implies crate::amounts::value_of(mab, k)
        == crate::amounts::value_of(mba, k) by {
        assert(val0(mab, k) == val0(merged(e, a), k) + val0(b, k));
        assert(val0(merged(e, a), k) == val0(e, k) + val0(a, k));
        assert(val0(mba, k) == val0(merged(e, b), k) + val0(a, k));
        assert(val0(merged(e, b), k) == val0(e, k) + val0(b, k));
    }
    assert(as_map(mab) =~= as_map(mba));
}

/// One merge folds a source in exactly once: merging the same source a
/// second time doubles its contribution. Callers that want each source
/// counted once must therefore merge it exactly once.
pub proof fn lemma_merge_twice_doubles(t: Seq<Entry>, s: Seq<Entry>, k: Seq<char>)
    requires
        distinct_keys(t),
        distinct_keys(s),
    ensures
        val0(merged(t, s), k) == val0(t, k) + val0(s, k),
        val0(merged(merged(t, s), s), k) == val0(t, k) + 2 * val0(s, k),
{
    lemma_merged_upto(t, s, s.len() as int);
    assert(s.subrange(0, s.len() as int) =~= s);
    lemma_merged_upto(merged(t, s), s, s.len() as int);
}

/// A mapping that can absorb another of its kind, summing on collision.
pub trait Upsertable {
    /// The abstract entries of the mapping.
    spec fn entries(&self) -> Seq<Entry>;

    /// Folds every entry of `source` into `self`: a participant absent
    /// from `self` is inserted, a present one has the values summed.
    fn upsert_all(&mut self, source: &Self)
        requires
            distinct_keys(old(self).entries()),
            distinct_keys(source.entries()),
            forall|k: Seq<char>| i64::MIN <= #[trigger] val0(old(self).entries(), k) + val0(
                source.entries(),
                k,
            ) <= i64::MAX,
        ensures
            final(self).entries() == merged(old(self).entries(), source.entries()),
            distinct_keys(final(self).entries()),
    ;
}

impl Upsertable for UserAmounts {
    open spec fn entries(&self) -> Seq<Entry> {
        self@
    }

    fn upsert_all(&mut self, source: &Self) {
        let n = source.len();
        for i in 0..n
            invariant
                n == source@.len(),
                distinct_keys(old(self)@),
                distinct_keys(source@),
                forall|k: Seq<char>| i64::MIN <= #[trigger] val0(old(self)@, k) + val0(source@, k)
                    <= i64::MAX,
                self@ == merged_upto(old(self)@, source@, i as int),
                distinct_keys(self@),
        {
            proof {
                lemma_merged_upto(old(self)@, source@, i as int);
                let k = source@[i as int].0;
                lemma_index_value(source@, i as int);
                // The value already accumulated under this key is what the
                // target read there: the source's keys are distinct, so the
                // first i entries contributed nothing under k.
                crate::amounts::lemma_value_from_absent(source@.subrange(0, i as int), 0, k);
                assert(!contains_key(source@.subrange(0, i as int), k));
                assert(val0(self@, k) == val0(old(self)@, k));
                if contains_key(self@, k) {
                    assert(crate::amounts::value_of(self@, k) == val0(self@, k));
                }
            }
            let user = source.key_at(i);
            let value = source.value_at(i);
            self.upsert(user, value);
        }
        proof {
            assert(source@.subrange(0, source@.len() as int) =~= source@);
        }
    }
}

} // verus!
