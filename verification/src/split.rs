//! The split coordinator: sums the expenses into a subtotal, divides a
//! tax pool and a tip pool across the participants in proportion to
//! their subtotals, and merges everything into per-participant totals.
//!
//! The proportional walk visits the participants in first-appearance
//! order; the last participant with a positive weight absorbs whatever
//! rounding drift remains, so each pool is conserved exactly.

use vstd::math::min;
use vstd::prelude::*;

use crate::amounts::{
    all_nonneg, contains_key, distinct_keys, lemma_entry_le_total, lemma_total_from_nonneg,
    lemma_upserted_distinct, lemma_upserted_nonneg, lemma_upserted_total, lemma_value_le_total,
    total_from, total_of, upserted, val0, Entry, UserAmounts,
};
use crate::expense::Expense;
use crate::rounding::{lemma_round_half_up_bounds, mul_div_round_half_up, round_half_up};
use crate::upserting::{lemma_merged_nonneg, lemma_merged_upto, merged, Upsertable};

verus! {

/// Rejected construction: no expenses, or a negative tax or tip.
#[derive(Debug, PartialEq)]
pub struct SplitError;

/// The sum of the amounts of the expenses from position `i` on.
pub open spec fn sum_amounts_from(es: Seq<Expense>, i: int) -> int
    decreases es.len() - i,
{
    if i < 0 || i >= es.len() {
        0
    } else {
        es[i].spec_amount() + sum_amounts_from(es, i + 1)
    }
}

/// The sum of the amounts of all expenses.
pub open spec fn sum_amounts(es: Seq<Expense>) -> int {
    sum_amounts_from(es, 0)
}

proof fn lemma_sum_amounts_nonneg(es: Seq<Expense>, i: int)
    requires
        forall|j: int| 0 <= j < es.len() ==> #[trigger] es[j].wf(),
    ensures
        sum_amounts_from(es, i) >= 0,
    decreases es.len() - i,
{
    if 0 <= i && i < es.len() {
        assert(es[i].wf());
        lemma_sum_amounts_nonneg(es, i + 1);
    }
}

/// The tentative proportional share of a weight: the pool scaled by
/// `weight / total`, rounded half up; `0` when the total is not
/// positive (the defensive division-by-zero guard).
pub open spec fn prop_tentative(pool: int, weight: int, total: int) -> int {
    if total > 0 {
        round_half_up(pool * weight, total)
    } else {
        0
    }
}

/// Whether some weight from position `i` on is positive.
pub open spec fn any_pos_from(ws: Seq<Entry>, i: int) -> bool {
    exists|j: int| i <= j < ws.len() && ws[j].1 > 0
}

/// What is left of the pool before position `i` of the proportional
/// walk: each earlier position took its tentative share clamped to what
/// was left, and the last position with a positive weight took
/// everything still left.
pub open spec fn prop_rem_before(pool: int, ws: Seq<Entry>, total: int, i: int) -> int
    decreases i,
{
    if i <= 0 {
        pool
    } else {
        let r = prop_rem_before(pool, ws, total, i - 1);
        if ws[i - 1].1 > 0 && !any_pos_from(ws, i) {
            0
        } else {
            r - min(prop_tentative(pool, ws[i - 1].1, total), r)
        }
    }
}

/// The cents assigned to position `i` of the proportional walk.
pub open spec fn prop_slot(pool: int, ws: Seq<Entry>, total: int, i: int) -> int {
    let r = prop_rem_before(pool, ws, total, i);
    if ws[i].1 > 0 && !any_pos_from(ws, i + 1) {
        r
    } else {
        min(prop_tentative(pool, ws[i].1, total), r)
    }
}

/// The whole proportional allocation of `pool` over the weights `ws`:
/// the same participants in the same order, each with its slot value.
pub open spec fn prop_entries(pool: int, ws: Seq<Entry>, total: int) -> Seq<Entry> {
    Seq::new(ws.len(), |i: int| (ws[i].0, prop_slot(pool, ws, total, i)))
}

proof fn lemma_total_zero(ws: Seq<Entry>, j: int)
    requires
        forall|m: int| 0 <= m < ws.len() ==> ws[m].1 == 0,
    ensures
        total_from(ws, j) == 0,
    decreases ws.len() - j,
{
    if 0 <= j && j < ws.len() {
        lemma_total_zero(ws, j + 1);
    }
}

/// With non-negative weights, some weight is positive exactly when the
/// weights' sum is positive.
pub proof fn lemma_any_pos_iff_total_pos(ws: Seq<Entry>)
    requires
        all_nonneg(ws),
    ensures
        any_pos_from(ws, 0) <==> total_of(ws) > 0,
{
    if any_pos_from(ws, 0) {
        let j = choose|j: int| 0 <= j < ws.len() && ws[j].1 > 0;
        lemma_entry_le_total(ws, j);
    } else {
        assert(forall|m: int| 0 <= m < ws.len() ==> ws[m].1 == 0);
        lemma_total_zero(ws, 0);
    }
}

/// The tentative share lies between `0` and the pool.
proof fn lemma_tentative_bounds(pool: int, ws: Seq<Entry>, total: int, i: int)
    requires
        0 <= pool,
        all_nonneg(ws),
        total == total_of(ws),
        0 <= i < ws.len(),
    ensures
        0 <= prop_tentative(pool, ws[i].1, total) <= pool,
{
    if total > 0 {
        lemma_entry_le_total(ws, i);
        lemma_round_half_up_bounds(pool, ws[i].1, total);
    }
}

proof fn lemma_tentative_of_zero(pool: int, total: int)
    requires
        0 <= pool,
    ensures
        prop_tentative(pool, 0, total) == 0,
{
    if total > 0 {
        assert(pool * 0 == 0 && 0 * 0 == 0) by (nonlinear_arith);
        lemma_round_half_up_bounds(0, 0, total);
    }
}

/// What is left of the pool is never negative and never exceeds it.
pub proof fn lemma_prop_rem_bounds(pool: int, ws: Seq<Entry>, total: int, i: int)
    requires
        0 <= pool,
        all_nonneg(ws),
        total == total_of(ws),
        0 <= i <= ws.len(),
    ensures
        0 <= prop_rem_before(pool, ws, total, i) <= pool,
    decreases i,
{
    if i > 0 {
        lemma_prop_rem_bounds(pool, ws, total, i - 1);
        lemma_tentative_bounds(pool, ws, total, i - 1);
    }
}

/// One ordered split of expenses with a tax and a tip pool, and the
/// four per-participant mappings that `process` populates.
#[derive(Debug)]
pub struct Split {
    expenses: Vec<Expense>,
    user_subtotals: UserAmounts,
    user_taxes: UserAmounts,
    user_tips: UserAmounts,
    user_totals: UserAmounts,
    subtotal: i64,
    tax: i64,
    tip: i64,
    total: i64,
}

/// The merge of the calculated allocations of the first `i` expenses,
/// in order: the per-participant subtotals.
pub open spec fn subtotals_of_upto(es: Seq<Expense>, i: int) -> Seq<Entry>
    decreases i,
{
    if i <= 0 {
        Seq::<Entry>::empty()
    } else {
        merged(subtotals_of_upto(es, i - 1), es[i - 1].spec_allocation())
    }
}

/// The per-participant subtotals of a whole expense list.
pub open spec fn subtotals_of(es: Seq<Expense>) -> Seq<Entry> {
    subtotals_of_upto(es, es.len() as int)
}

impl Split {
    /// The expenses, in the order given.
    pub closed spec fn spec_expenses(&self) -> Seq<Expense> {
        self.expenses@
    }

    /// The per-participant subtotal mapping.
    pub closed spec fn spec_user_subtotals(&self) -> Seq<Entry> {
        self.user_subtotals@
    }

    /// The per-participant tax-share mapping.
    pub closed spec fn spec_user_taxes(&self) -> Seq<Entry> {
        self.user_taxes@
    }

    /// The per-participant tip-share mapping.
    pub closed spec fn spec_user_tips(&self) -> Seq<Entry> {
        self.user_tips@
    }

    /// The per-participant grand-total mapping.
    pub closed spec fn spec_user_totals(&self) -> Seq<Entry> {
        self.user_totals@
    }

    /// The sum of the expense amounts, in cents.
    pub closed spec fn spec_subtotal(&self) -> int {
        self.subtotal as int
    }

    /// The tax pool, in cents.
    pub closed spec fn spec_tax(&self) -> int {
        self.tax as int
    }

    /// The tip pool, in cents.
    pub closed spec fn spec_tip(&self) -> int {
        self.tip as int
    }

    /// Subtotal plus tax plus tip, in cents.
    pub closed spec fn spec_total(&self) -> int {
        self.total as int
    }

    /// Every split the library hands out satisfies this.
    pub open spec fn wf(&self) -> bool {
        &&& self.spec_expenses().len() >= 1
        &&& forall|i: int| 0 <= i < self.spec_expenses().len()
            ==> #[trigger] self.spec_expenses()[i].wf()
        &&& self.spec_subtotal() == sum_amounts(self.spec_expenses())
        &&& self.spec_subtotal() >= 0
        &&& self.spec_tax() >= 0
        &&& self.spec_tip() >= 0
        &&& self.spec_total() == self.spec_subtotal() + self.spec_tax() + self.spec_tip()
        &&& distinct_keys(self.spec_user_subtotals())
        &&& distinct_keys(self.spec_user_taxes())
        &&& distinct_keys(self.spec_user_tips())
        &&& distinct_keys(self.spec_user_totals())
    }

    /// Builds a split over the given expenses; rejects an empty expense
    /// list, a negative tax, or a negative tip. The subtotal and the
    /// grand total are computed eagerly.
    pub fn new(expenses: Vec<Expense>, tax: i64, tip: i64) -> (r: Result<Split, SplitError>)
        requires
            forall|i: int| 0 <= i < expenses@.len() ==> #[trigger] expenses@[i].wf(),
            sum_amounts(expenses@) <= i64::MAX,
            tax >= 0 && tip >= 0 ==> sum_amounts(expenses@) + tax + tip <= i64::MAX,
        ensures
            match r {
                Ok(s) => {
                    &&& expenses@.len() > 0
                    &&& tax >= 0
                    &&& tip >= 0
                    &&& s.wf()
                    &&& s.spec_expenses() == expenses@
                    &&& s.spec_subtotal() == sum_amounts(expenses@)
                    &&& s.spec_tax() == tax as int
                    &&& s.spec_tip() == tip as int
                    &&& s.spec_total() == sum_amounts(expenses@) + tax + tip
                    &&& s.spec_user_subtotals() == Seq::<Entry>::empty()
                    &&& s.spec_user_taxes() == Seq::<Entry>::empty()
                    &&& s.spec_user_tips() == Seq::<Entry>::empty()
                    &&& s.spec_user_totals() == Seq::<Entry>::empty()
                },
                Err(_) => expenses@.len() == 0 || tax < 0 || tip < 0,
            },
    {
        if expenses.len() == 0 {
            return Err(SplitError);
        }
        let n = expenses.len();
        let mut subtotal: i64 = 0;
        for i in 0..n
            invariant
                n == expenses@.len(),
                forall|j: int| 0 <= j < expenses@.len() ==> #[trigger] expenses@[j].wf(),
                sum_amounts(expenses@) <= i64::MAX,
                subtotal as int + sum_amounts_from(expenses@, i as int) == sum_amounts(expenses@),
                subtotal >= 0,
        {
            proof {
                assert(expenses@[i as int].wf());
                lemma_sum_amounts_nonneg(expenses@, i + 1);
            }
            subtotal = subtotal + expenses[i].get_amount();
        }
        if subtotal < 0 {
            return Err(SplitError);
        }
        if tax < 0 {
            return Err(SplitError);
        }
        if tip < 0 {
            return Err(SplitError);
        }
        Ok(
            Split {
                expenses,
                user_subtotals: UserAmounts::new(),
                user_taxes: UserAmounts::new(),
                user_tips: UserAmounts::new(),
                user_totals: UserAmounts::new(),
                subtotal,
                tax,
                tip,
                total: subtotal + tax + tip,
            },
        )
    }

    /// Merges the calculated allocation of every expense, in order,
    /// into one per-participant subtotal mapping.
    fn calculate_subtotals(expenses: &Vec<Expense>) -> (r: UserAmounts)
        requires
            forall|i: int| 0 <= i < expenses@.len() ==> #[trigger] expenses@[i].wf(),
            forall|i: int| 0 <= i < expenses@.len() ==> #[trigger] expenses@[i].is_calculated(),
            sum_amounts(expenses@) <= i64::MAX,
        ensures
            r@ == subtotals_of(expenses@),
            distinct_keys(r@),
            all_nonneg(r@),
            total_of(r@) == sum_amounts(expenses@),
            forall|k: Seq<char>| #[trigger] contains_key(r@, k) <==> exists|j: int|
                0 <= j < expenses@.len() && expenses@[j].participant_names().contains(k),
    {
        let ghost es = expenses@;
        let n = expenses.len();
        let mut subs = UserAmounts::new();
        for j in 0..n
            invariant
                n == es.len(),
                es == expenses@,
                forall|i: int| 0 <= i < es.len() ==> #[trigger] es[i].wf(),
                forall|i: int| 0 <= i < es.len() ==> #[trigger] es[i].is_calculated(),
                sum_amounts(es) <= i64::MAX,
                subs@ == subtotals_of_upto(es, j as int),
                distinct_keys(subs@),
                all_nonneg(subs@),
                total_of(subs@) == sum_amounts(es) - sum_amounts_from(es, j as int),
                forall|k: Seq<char>| #[trigger] contains_key(subs@, k) <==> exists|jj: int|
                    0 <= jj < j && es[jj].participant_names().contains(k),
        {
            let ghost pre = subs@;
            let ghost alloc = es[j as int].spec_allocation();
            proof {
                assert(es[j as int].wf());
                assert(es[j as int].is_calculated());
                lemma_sum_amounts_nonneg(es, j + 1);
                assert(total_of(alloc) == es[j as int].spec_amount());
                assert forall|k: Seq<char>| i64::MIN <= #[trigger] val0(pre, k) + val0(alloc, k)
                    <= i64::MAX by {
                    lemma_value_le_total(pre, k);
                    lemma_value_le_total(alloc, k);
                }
            }
            subs.upsert_all(expenses[j].get_user_to_amount());
            proof {
                lemma_merged_upto(pre, alloc, alloc.len() as int);
                lemma_merged_nonneg(pre, alloc);
                assert(alloc.subrange(0, alloc.len() as int) =~= alloc);
                assert forall|k: Seq<char>| #[trigger] contains_key(subs@, k) <==> exists|jj: int|
                    0 <= jj < j + 1 && es[jj].participant_names().contains(k) by {
                    assert(contains_key(subs@, k) <==> (contains_key(pre, k) || contains_key(
                        alloc,
                        k,
                    )));
                    assert(contains_key(alloc, k) <==> es[j as int].participant_names().contains(
                        k,
                    ));
                }
            }
        }
        subs
    }

    /// Allocates a pool across weighted participants: each gets the
    /// rounded proportional share of the pool, clamped to what is left;
    /// the last participant with a positive weight absorbs the rest, so
    /// the pool is conserved exactly. A participant with weight `0`
    /// always gets `0`.
    pub fn allocate_proportional(pool: i64, weights: &UserAmounts, weights_total: i64) -> (r:
        UserAmounts)
        requires
            0 <= pool,
            weights.wf(),
            all_nonneg(weights@),
            weights_total as int == total_of(weights@),
        ensures
            r@ == prop_entries(pool as int, weights@, weights_total as int),
            r.wf(),
            all_nonneg(r@),
            total_of(r@) == if any_pos_from(weights@, 0) {
                pool as int
            } else {
                0
            },
            forall|i: int| 0 <= i < weights@.len() && weights@[i].1 == 0
                ==> #[trigger] prop_slot(pool as int, weights@, weights_total as int, i) == 0,
            forall|k: Seq<char>| #[trigger] contains_key(r@, k) <==> contains_key(weights@, k),
    {
        let ghost ws = weights@;
        let ghost pool_g = pool as int;
        let ghost total_g = weights_total as int;
        let n = weights.len();
        // The slot that absorbs the remainder: the last positive weight.
        let mut last_pos: usize = n;
        for j in 0..n
            invariant
                n == ws.len(),
                ws == weights@,
                all_nonneg(ws),
                last_pos <= n,
                last_pos == n ==> forall|m: int| 0 <= m < j ==> ws[m].1 == 0,
                last_pos < n ==> last_pos < j && ws[last_pos as int].1 > 0 && forall|m: int|
                    last_pos < m < j ==> ws[m].1 == 0,
        {
            if weights.value_at(j) > 0 {
                last_pos = j;
            }
        }
        let mut result = UserAmounts::new();
        let mut remaining = pool;
        proof {
            lemma_total_from_nonneg(ws, 0);
        }
        for i in 0..n
            invariant
                n == ws.len(),
                ws == weights@,
                pool_g == pool as int,
                total_g == weights_total as int,
                0 <= pool,
                distinct_keys(ws),
                all_nonneg(ws),
                total_g == total_of(ws),
                total_g >= 0,
                last_pos <= n,
                last_pos == n ==> forall|m: int| 0 <= m < n ==> ws[m].1 == 0,
                last_pos < n ==> ws[last_pos as int].1 > 0 && forall|m: int|
                    last_pos < m < n ==> ws[m].1 == 0,
                result@.len() == i,
                forall|m: int| 0 <= m < i ==> result@[m] == (
                    ws[m].0,
                    prop_slot(pool_g, ws, total_g, m),
                ),
                forall|m: int| 0 <= m < i ==> #[trigger] result@[m].0 == ws[m].0,
                distinct_keys(result@),
                all_nonneg(result@),
                remaining as int == prop_rem_before(pool_g, ws, total_g, i as int),
                0 <= remaining <= pool,
                total_of(result@) == pool_g - remaining,
                last_pos == n ==> remaining == pool,
                last_pos < n && i > last_pos ==> remaining == 0,
        {
            let w = weights.value_at(i);
            proof {
                lemma_entry_le_total(ws, i as int);
            }
            let tent: i64 = if weights_total > 0 {
                mul_div_round_half_up(pool, w, weights_total)
            } else {
                0
            };
            proof {
                assert(tent as int == prop_tentative(pool_g, ws[i as int].1, total_g));
            }
            let assigned: i64 = if i == last_pos {
                remaining
            } else if tent < remaining {
                tent
            } else {
                remaining
            };
            let ghost absorb = ws[i as int].1 > 0 && !any_pos_from(ws, i + 1);
            proof {
                if last_pos == n {
                    assert(ws[i as int].1 == 0);
                    assert(!absorb);
                    lemma_tentative_of_zero(pool_g, total_g);
                } else if i == last_pos {
                    assert(ws[i as int].1 > 0);
                    assert forall|m: int| i + 1 <= m < n implies ws[m].1 <= 0 by {
                        assert(ws[m].1 == 0);
                    }
                    assert(!any_pos_from(ws, i + 1));
                    assert(absorb);
                } else if i < last_pos {
                    assert(i + 1 <= last_pos < n && ws[last_pos as int].1 > 0);
                    assert(any_pos_from(ws, i + 1));
                    assert(!absorb);
                } else {
                    assert(ws[i as int].1 == 0);
                    assert(!absorb);
                }
                assert(assigned as int == prop_slot(pool_g, ws, total_g, i as int));
            }
            let ghost pre = result@;
            proof {
                assert(!contains_key(pre, ws[i as int].0)) by {
                    if contains_key(pre, ws[i as int].0) {
                        let m = choose|m: int| 0 <= m < pre.len() && pre[m].0 == ws[i as int].0;
                        assert(ws[m].0 == ws[i as int].0);
                        assert(false);
                    }
                }
                lemma_upserted_distinct(pre, ws[i as int].0, assigned as int);
                lemma_upserted_total(pre, ws[i as int].0, assigned as int);
                lemma_upserted_nonneg(pre, ws[i as int].0, assigned as int);
            }
            result.upsert(weights.key_at(i), assigned);
            remaining = remaining - assigned;
            proof {
                assert(result@ == pre.push((ws[i as int].0, assigned as int)));
                assert(forall|m: int| 0 <= m < i + 1 ==> result@[m] == (
                    ws[m].0,
                    prop_slot(pool_g, ws, total_g, m),
                ));
                assert(remaining as int == prop_rem_before(pool_g, ws, total_g, i + 1));
            }
        }
        proof {
            assert(result@ =~~= prop_entries(pool_g, ws, total_g));
            if last_pos < n {
                assert(any_pos_from(ws, 0)) by {
                    assert(0 <= last_pos < n && ws[last_pos as int].1 > 0);
                }
                assert(n > last_pos);
                assert(remaining == 0);
            } else {
                assert(!any_pos_from(ws, 0)) by {
                    if any_pos_from(ws, 0) {
                        let m = choose|m: int| 0 <= m < n && ws[m].1 > 0;
                        assert(ws[m].1 == 0);
                        assert(false);
                    }
                }
            }
            assert forall|i: int|
                0 <= i < ws.len() && ws[i].1 == 0 implies #[trigger] prop_slot(
                pool_g,
                ws,
                total_g,
                i,
            ) == 0 by {
                lemma_prop_rem_bounds(pool_g, ws, total_g, i);
                lemma_tentative_of_zero(pool_g, total_g);
            }
            assert forall|k: Seq<char>| #[trigger] contains_key(result@, k) <==> contains_key(
                ws,
                k,
            ) by {
                if contains_key(result@, k) {
                    let m = choose|m: int| 0 <= m < result@.len() && result@[m].0 == k;
                    assert(ws[m].0 == k);
                }
                if contains_key(ws, k) {
                    let m = choose|m: int| 0 <= m < ws.len() && ws[m].0 == k;
                    assert(result@[m].0 == k);
                }
            }
        }
        result
    }

    /// Runs the proportional allocation once for the tax pool and once
    /// for the tip pool, over the same weights in the same order.
    fn calculate_taxes_and_tips(tax: i64, tip: i64, subs: &UserAmounts, subtotal: i64) -> (r: (
        UserAmounts,
        UserAmounts,
    ))
        requires
            0 <= tax,
            0 <= tip,
            subs.wf(),
            all_nonneg(subs@),
            subtotal as int == total_of(subs@),
        ensures
            r.0@ == prop_entries(tax as int, subs@, subtotal as int),
            r.1@ == prop_entries(tip as int, subs@, subtotal as int),
            r.0.wf() && r.1.wf(),
            all_nonneg(r.0@) && all_nonneg(r.1@),
            total_of(r.0@) == if any_pos_from(subs@, 0) {
                tax as int
            } else {
                0
            },
            total_of(r.1@) == if any_pos_from(subs@, 0) {
                tip as int
            } else {
                0
            },
            forall|k: Seq<char>| #[trigger] contains_key(r.0@, k) <==> contains_key(subs@, k),
            forall|k: Seq<char>| #[trigger] contains_key(r.1@, k) <==> contains_key(subs@, k),
    {
        let taxes = Self::allocate_proportional(tax, subs, subtotal);
        let tips = Self::allocate_proportional(tip, subs, subtotal);
        (taxes, tips)
    }

    /// Merges subtotals, tax shares and tip shares, in that order, into
    /// the grand-total mapping.
    fn calculate_totals(subs: &UserAmounts, taxes: &UserAmounts, tips: &UserAmounts) -> (r:
        UserAmounts)
        requires
            subs.wf() && taxes.wf() && tips.wf(),
            all_nonneg(subs@) && all_nonneg(taxes@) && all_nonneg(tips@),
            total_of(subs@) + total_of(taxes@) + total_of(tips@) <= i64::MAX,
        ensures
            r@ == merged(merged(subs@, taxes@), tips@),
            r.wf(),
            all_nonneg(r@),
            total_of(r@) == total_of(subs@) + total_of(taxes@) + total_of(tips@),
            forall|k: Seq<char>| #[trigger] val0(r@, k) == val0(subs@, k) + val0(taxes@, k) + val0(
                tips@,
                k,
            ),
            forall|k: Seq<char>| #[trigger] contains_key(r@, k) <==> (contains_key(subs@, k)
                || contains_key(taxes@, k) || contains_key(tips@, k)),
    {
        let mut totals = subs.clone();
        let ghost m1 = merged(subs@, taxes@);
        proof {
            lemma_total_from_nonneg(subs@, 0);
            lemma_total_from_nonneg(taxes@, 0);
            lemma_total_from_nonneg(tips@, 0);
            assert forall|k: Seq<char>| i64::MIN <= #[trigger] val0(subs@, k) + val0(taxes@, k)
                <= i64::MAX by {
                lemma_value_le_total(subs@, k);
                lemma_value_le_total(taxes@, k);
            }
        }
        totals.upsert_all(taxes);
        proof {
            lemma_merged_upto(subs@, taxes@, taxes@.len() as int);
            lemma_merged_nonneg(subs@, taxes@);
            assert(taxes@.subrange(0, taxes@.len() as int) =~= taxes@);
            assert(total_of(m1) == total_of(subs@) + total_of(taxes@));
            assert forall|k: Seq<char>| i64::MIN <= #[trigger] val0(m1, k) + val0(tips@, k)
                <= i64::MAX by {
                lemma_value_le_total(m1, k);
                lemma_value_le_total(tips@, k);
            }
        }
        totals.upsert_all(tips);
        proof {
            lemma_merged_upto(m1, tips@, tips@.len() as int);
            lemma_merged_nonneg(m1, tips@);
            assert(tips@.subrange(0, tips@.len() as int) =~= tips@);
        }
        totals
    }

    /// Populates the four mappings in order — subtotals, then tax and
    /// tip shares, then grand totals — and returns a copy of the
    /// grand-total mapping. Meant to run once, on a freshly built split
    /// whose expenses are all calculated.
    pub fn process(&mut self) -> (r: UserAmounts)
        requires
            old(self).wf(),
            forall|i: int| 0 <= i < old(self).spec_expenses().len() ==> #[trigger] old(
                self,
            ).spec_expenses()[i].is_calculated(),
            old(self).spec_user_subtotals() == Seq::<Entry>::empty(),
            old(self).spec_user_taxes() == Seq::<Entry>::empty(),
            old(self).spec_user_tips() == Seq::<Entry>::empty(),
            old(self).spec_user_totals() == Seq::<Entry>::empty(),
        ensures
            final(self).wf(),
            final(self).spec_expenses() == old(self).spec_expenses(),
            final(self).spec_subtotal() == old(self).spec_subtotal(),
            final(self).spec_tax() == old(self).spec_tax(),
            final(self).spec_tip() == old(self).spec_tip(),
            final(self).spec_total() == old(self).spec_total(),
            final(self).spec_user_subtotals() == subtotals_of(old(self).spec_expenses()),
            final(self).spec_user_taxes() == prop_entries(
                old(self).spec_tax(),
                final(self).spec_user_subtotals(),
                old(self).spec_subtotal(),
            ),
            final(self).spec_user_tips() == prop_entries(
                old(self).spec_tip(),
                final(self).spec_user_subtotals(),
                old(self).spec_subtotal(),
            ),
            final(self).spec_user_totals() == merged(
                merged(final(self).spec_user_subtotals(), final(self).spec_user_taxes()),
                final(self).spec_user_tips(),
            ),
            r@ == final(self).spec_user_totals(),
            total_of(final(self).spec_user_subtotals()) == old(self).spec_subtotal(),
            old(self).spec_subtotal() > 0 ==> total_of(final(self).spec_user_taxes()) == old(
                self,
            ).spec_tax(),
            old(self).spec_subtotal() > 0 ==> total_of(final(self).spec_user_tips()) == old(
                self,
            ).spec_tip(),
            old(self).spec_subtotal() > 0 ==> total_of(final(self).spec_user_totals()) == old(
                self,
            ).spec_total(),
            all_nonneg(final(self).spec_user_subtotals()),
            all_nonneg(final(self).spec_user_taxes()),
            all_nonneg(final(self).spec_user_tips()),
            all_nonneg(final(self).spec_user_totals()),
            forall|k: Seq<char>| #[trigger] val0(final(self).spec_user_totals(), k) == val0(
                final(self).spec_user_subtotals(),
                k,
            ) + val0(final(self).spec_user_taxes(), k) + val0(final(self).spec_user_tips(), k),
            forall|k: Seq<char>| #[trigger] contains_key(final(self).spec_user_totals(), k)
                <==> contains_key(final(self).spec_user_subtotals(), k),
            forall|k: Seq<char>| #[trigger] contains_key(final(self).spec_user_subtotals(), k)
                <==> exists|j: int| 0 <= j < old(self).spec_expenses().len() && old(
                self,
            ).spec_expenses()[j].participant_names().contains(k),
    {
        let subs = Self::calculate_subtotals(&self.expenses);
        let ghost sub_e = subs@;
        proof {
            lemma_any_pos_iff_total_pos(sub_e);
        }
        let (taxes, tips) = Self::calculate_taxes_and_tips(self.tax, self.tip, &subs, self.subtotal);
        let totals = Self::calculate_totals(&subs, &taxes, &tips);
        self.user_subtotals = subs;
        self.user_taxes = taxes;
        self.user_tips = tips;
        self.user_totals = totals;
        proof {
            assert forall|k: Seq<char>| #[trigger] contains_key(self.spec_user_totals(), k)
                <==> contains_key(self.spec_user_subtotals(), k) by {}
        }
        self.user_totals.clone()
    }

    /// The subtotal in cents.
    pub fn get_subtotal(&self) -> (r: i64)
        ensures
            r as int == self.spec_subtotal(),
    {
        self.subtotal
    }

    /// The tax pool in cents.
    pub fn get_tax(&self) -> (r: i64)
        ensures
            r as int == self.spec_tax(),
    {
        self.tax
    }

    /// The tip pool in cents.
    pub fn get_tip(&self) -> (r: i64)
        ensures
            r as int == self.spec_tip(),
    {
        self.tip
    }

    /// Subtotal plus tax plus tip, in cents.
    pub fn get_total(&self) -> (r: i64)
        ensures
            r as int == self.spec_total(),
    {
        self.total
    }

    /// How many expenses the split covers.
    pub fn num_expenses(&self) -> (r: usize)
        ensures
            r == self.spec_expenses().len(),
    {
        self.expenses.len()
    }

    /// The per-participant subtotal mapping.
    pub fn get_user_subtotals(&self) -> (r: &UserAmounts)
        ensures
            r@ == self.spec_user_subtotals(),
    {
        &self.user_subtotals
    }

    /// The per-participant tax-share mapping.
    pub fn get_user_taxes(&self) -> (r: &UserAmounts)
        ensures
            r@ == self.spec_user_taxes(),
    {
        &self.user_taxes
    }

    /// The per-participant tip-share mapping.
    pub fn get_user_tips(&self) -> (r: &UserAmounts)
        ensures
            r@ == self.spec_user_tips(),
    {
        &self.user_tips
    }

    /// The per-participant grand-total mapping.
    pub fn get_user_totals(&self) -> (r: &UserAmounts)
        ensures
            r@ == self.spec_user_totals(),
    {
        &self.user_totals
    }
}

} // verus!
