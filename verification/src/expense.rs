//! One shared expense: a draft that collects participants, finalized
//! into an immutable record, whose cost is split equally across the
//! ordered participant slots with exact conservation of the amount.
//!
//! Each slot gets the rounded per-slot share, clamped to what is still
//! left of the amount; the last slot absorbs whatever remains, so the
//! assigned values always sum to the amount exactly.

use vstd::math::min;
use vstd::prelude::*;

use crate::amounts::{
    all_nonneg, contains_key, distinct_keys, lemma_upserted_distinct, lemma_upserted_lookup,
    lemma_upserted_nonneg, lemma_upserted_total, lemma_value_le_total, total_of, upserted, val0,
    value_of, Entry, UserAmounts,
};
use crate::rounding::{div_round_half_up, round_half_up};
use crate::user::User;

verus! {

/// Rejected construction: an empty name, a negative amount, or a
/// finalization without participants.
#[derive(Debug, PartialEq)]
pub struct PendingExpenseError;

/// The tentative per-slot share: the amount divided by the number of
/// slots, rounded half up to the cent.
pub open spec fn equal_share(amount: int, n: int) -> int {
    round_half_up(amount, n)
}

/// What is left of the amount before slot `i`, after the first `i`
/// slots each took the share clamped to what was left.
pub open spec fn rem_before(amount: int, share: int, i: int) -> int
    decreases i,
{
    if i <= 0 {
        amount
    } else {
        let r = rem_before(amount, share, i - 1);
        r - min(share, r)
    }
}

/// The cents assigned to slot `i` of `n`: the clamped share, except
/// that the last slot absorbs everything still left.
pub open spec fn slot_value(amount: int, share: int, n: int, i: int) -> int {
    if i == n - 1 {
        rem_before(amount, share, i)
    } else {
        min(share, rem_before(amount, share, i))
    }
}

/// The cents owed to participant `k` by the first `i` slots: the sum of
/// the slot values of the slots `k` occupies.
pub open spec fn owed_upto(names: Seq<Seq<char>>, amount: int, share: int, i: int, k: Seq<char>) -> int
    decreases i,
{
    if i <= 0 {
        0
    } else {
        owed_upto(names, amount, share, i - 1, k) + if names[i - 1] == k {
            slot_value(amount, share, names.len() as int, i - 1)
        } else {
            0
        }
    }
}

/// The keys of a sequence of entries, in order.
pub open spec fn keys_of(es: Seq<Entry>) -> Seq<Seq<char>> {
    Seq::new(es.len(), |i: int| es[i].0)
}

/// The distinct names among the first `i`, in first-appearance order.
pub open spec fn firsts_upto(names: Seq<Seq<char>>, i: int) -> Seq<Seq<char>>
    decreases i,
{
    if i <= 0 {
        Seq::<Seq<char>>::empty()
    } else {
        let p = firsts_upto(names, i - 1);
        if p.contains(names[i - 1]) {
            p
        } else {
            p.push(names[i - 1])
        }
    }
}

/// `firsts_upto` holds exactly the names seen so far.
pub proof fn lemma_firsts_contains(names: Seq<Seq<char>>, i: int, k: Seq<char>)
    requires
        0 <= i <= names.len(),
    ensures
        firsts_upto(names, i).contains(k) <==> exists|j: int| 0 <= j < i && names[j] == k,
    decreases i,
{
    if i > 0 {
        lemma_firsts_contains(names, i - 1, k);
        let p = firsts_upto(names, i - 1);
        let q = firsts_upto(names, i);
        if !p.contains(names[i - 1]) {
            assert(q == p.push(names[i - 1]));
            if p.contains(k) || k == names[i - 1] {
                if k == names[i - 1] {
                    assert(q[p.len() as int] == k);
                    assert(q.contains(k));
                } else {
                    let j = choose|j: int| 0 <= j < p.len() && p[j] == k;
                    assert(q[j] == k);
                    assert(q.contains(k));
                }
            } else {
                if q.contains(k) {
                    let j = choose|j: int| 0 <= j < q.len() && q[j] == k;
                    assert(j == p.len() || p[j] == k);
                    assert(false);
                }
            }
        }
        if i - 1 >= 0 && names[i - 1] == k {
            assert(exists|j: int| 0 <= j < i && names[j] == k);
        }
    }
}

/// What is left is never negative and never exceeds the amount.
pub proof fn lemma_rem_bounds(amount: int, share: int, i: int)
    requires
        0 <= amount,
        0 <= share,
        0 <= i,
    ensures
        0 <= rem_before(amount, share, i) <= amount,
    decreases i,
{
    if i > 0 {
        lemma_rem_bounds(amount, share, i - 1);
    }
}

/// A draft expense: name, amount in cents, and the ordered participant
/// slots collected so far.
#[derive(Debug)]
pub struct PendingExpense {
    name: String,
    amount: i64,
    participants: Vec<User>,
}

/// A finalized expense. Its allocation starts empty and is populated by
/// `calculate`.
#[derive(Debug)]
pub struct Expense {
    name: String,
    amount: i64,
    participants: Vec<User>,
    user_to_amount: UserAmounts,
}

impl PendingExpense {
    /// The expense's name.
    pub closed spec fn spec_name(&self) -> Seq<char> {
        self.name@
    }

    /// The amount in cents.
    pub closed spec fn spec_amount(&self) -> int {
        self.amount as int
    }

    /// The names of the participant slots, in order.
    pub closed spec fn participant_names(&self) -> Seq<Seq<char>> {
        Seq::new(self.participants@.len(), |i: int| self.participants@[i]@)
    }

    /// Every draft the library hands out satisfies this.
    pub open spec fn wf(&self) -> bool {
        self.spec_name().len() > 0 && self.spec_amount() >= 0
    }

    /// Opens a draft; rejects an empty name or a negative amount.
    pub fn new(name: &str, amount: i64) -> (r: Result<PendingExpense, PendingExpenseError>)
        ensures
            match r {
                Ok(p) => {
                    &&& name@.len() > 0
                    &&& amount >= 0
                    &&& p.spec_name() == name@
                    &&& p.spec_amount() == amount as int
                    &&& p.participant_names() == Seq::<Seq<char>>::empty()
                    &&& p.wf()
                },
                Err(_) => name@.len() == 0 || amount < 0,
            },
    {
        if name.is_empty() {
            return Err(PendingExpenseError);
        }
        if amount < 0 {
            return Err(PendingExpenseError);
        }
        let p = PendingExpense { name: name.to_owned(), amount, participants: Vec::new() };
        proof {
            assert(p.participant_names() =~~= Seq::<Seq<char>>::empty());
        }
        Ok(p)
    }

    /// Appends one participant slot. Duplicates are allowed: each
    /// occurrence is a separate allocation slot.
    pub fn add_participant(&mut self, user: &User)
        ensures
            final(self).spec_name() == old(self).spec_name(),
            final(self).spec_amount() == old(self).spec_amount(),
            final(self).participant_names() == old(self).participant_names().push(user@),
    {
        self.participants.push(user.clone());
        proof {
            assert(self.participant_names() =~~= old(self).participant_names().push(user@));
        }
    }

    /// The expense's name.
    pub fn get_name(&self) -> (r: &String)
        ensures
            r@ == self.spec_name(),
    {
        &self.name
    }

    /// The amount in cents.
    pub fn get_amount(&self) -> (r: i64)
        ensures
            r as int == self.spec_amount(),
    {
        self.amount
    }

    /// How many participant slots have been added.
    pub fn num_participants(&self) -> (r: usize)
        ensures
            r == self.participant_names().len(),
    {
        self.participants.len()
    }

    /// Consumes the draft into an immutable expense with an empty
    /// allocation; rejects a draft without participants.
    pub fn finalize(self) -> (r: Result<Expense, PendingExpenseError>)
        requires
            self.wf(),
        ensures
            match r {
                Ok(e) => {
                    &&& self.participant_names().len() > 0
                    &&& e.spec_name() == self.spec_name()
                    &&& e.spec_amount() == self.spec_amount()
                    &&& e.participant_names() == self.participant_names()
                    &&& e.spec_allocation() == Seq::<Entry>::empty()
                    &&& e.wf()
                },
                Err(_) => self.participant_names().len() == 0,
            },
    {
        if self.participants.len() == 0 {
            return Err(PendingExpenseError);
        }
        let e = Expense {
            name: self.name,
            amount: self.amount,
            participants: self.participants,
            user_to_amount: UserAmounts::new(),
        };
        Ok(e)
    }
}

impl Expense {
    /// The expense's name.
    pub closed spec fn spec_name(&self) -> Seq<char> {
        self.name@
    }

    /// The amount in cents.
    pub closed spec fn spec_amount(&self) -> int {
        self.amount as int
    }

    /// The names of the participant slots, in order.
    pub closed spec fn participant_names(&self) -> Seq<Seq<char>> {
        Seq::new(self.participants@.len(), |i: int| self.participants@[i]@)
    }

    /// The allocation entries.
    pub closed spec fn spec_allocation(&self) -> Seq<Entry> {
        self.user_to_amount@
    }

    /// Every finalized expense the library hands out satisfies this.
    pub open spec fn wf(&self) -> bool {
        &&& self.spec_name().len() > 0
        &&& self.spec_amount() >= 0
        &&& self.participant_names().len() >= 1
        &&& distinct_keys(self.spec_allocation())
        &&& all_nonneg(self.spec_allocation())
    }

    /// The allocation holds exactly the equal split of the amount over
    /// the participant slots: one entry per distinct participant, in
    /// first-appearance order, carrying the sum of that participant's
    /// slot values; the values conserve the amount exactly.
    pub open spec fn is_calculated(&self) -> bool {
        let names = self.participant_names();
        let n = names.len() as int;
        let share = equal_share(self.spec_amount(), n);
        &&& total_of(self.spec_allocation()) == self.spec_amount()
        &&& keys_of(self.spec_allocation()) == firsts_upto(names, n)
        &&& forall|k: Seq<char>| #[trigger] val0(self.spec_allocation(), k) == owed_upto(
            names,
            self.spec_amount(),
            share,
            n,
            k,
        )
        &&& forall|k: Seq<char>| #[trigger] contains_key(self.spec_allocation(), k)
            <==> names.contains(k)
    }

    /// Runs the equal split and stores the allocation. Recomputes from
    /// scratch, so a second invocation yields the same mapping.
    pub fn calculate(&mut self)
        requires
            old(self).wf(),
        ensures
            final(self).spec_name() == old(self).spec_name(),
            final(self).spec_amount() == old(self).spec_amount(),
            final(self).participant_names() == old(self).participant_names(),
            final(self).wf(),
            final(self).is_calculated(),
            total_of(final(self).spec_allocation()) == old(self).spec_amount(),
    {
        let ghost names = self.participant_names();
        let ghost amount_g = self.spec_amount();
        let n = self.participants.len();
        let share = div_round_half_up(self.amount, n);
        let mut alloc = UserAmounts::new();
        let mut remaining = self.amount;
        proof {
            assert(total_of(alloc@) == 0);
        }
        for i in 0..n
            invariant
                n == names.len(),
                names == self.participant_names(),
                amount_g == self.spec_amount(),
                amount_g >= 0,
                share as int == equal_share(amount_g, n as int),
                0 <= share <= self.amount,
                *self == *old(self),
                distinct_keys(alloc@),
                all_nonneg(alloc@),
                remaining as int == if i < n {
                    rem_before(amount_g, share as int, i as int)
                } else {
                    0
                },
                0 <= remaining <= self.amount,
                total_of(alloc@) == amount_g - remaining,
                keys_of(alloc@) == firsts_upto(names, i as int),
                forall|k: Seq<char>| #[trigger] val0(alloc@, k) == owed_upto(
                    names,
                    amount_g,
                    share as int,
                    i as int,
                    k,
                ),
                forall|k: Seq<char>| #[trigger] contains_key(alloc@, k) <==> exists|j: int|
                    0 <= j < i && names[j] == k,
        {
            let assigned: i64 = if i == n - 1 {
                remaining
            } else if share < remaining {
                share
            } else {
                remaining
            };
            proof {
                assert(assigned as int == slot_value(amount_g, share as int, n as int, i as int));
            }
            let ghost pre = alloc@;
            let ghost k0 = names[i as int];
            proof {
                assert(self.participants@[i as int]@ == k0);
                lemma_value_le_total(pre, k0);
                lemma_upserted_distinct(pre, k0, assigned as int);
                lemma_upserted_total(pre, k0, assigned as int);
                lemma_upserted_nonneg(pre, k0, assigned as int);
                if contains_key(pre, k0) {
                    assert(value_of(pre, k0) == val0(pre, k0));
                }
            }
            alloc.upsert(&self.participants[i], assigned);
            remaining = remaining - assigned;
            proof {
                assert(alloc@ == upserted(pre, k0, assigned as int));
                assert forall|k: Seq<char>| #[trigger] val0(alloc@, k) == owed_upto(
                    names,
                    amount_g,
                    share as int,
                    i + 1,
                    k,
                ) by {
                    lemma_upserted_lookup(pre, k0, assigned as int, k);
                }
                assert forall|k: Seq<char>| #[trigger] contains_key(alloc@, k) <==> exists|j: int|
                    0 <= j < i + 1 && names[j] == k by {
                    lemma_upserted_lookup(pre, k0, assigned as int, k);
                    if contains_key(alloc@, k) && k == k0 {
                        assert(names[i as int] == k);
                    }
                }
                lemma_firsts_contains(names, i as int, k0);
                if contains_key(pre, k0) {
                    assert(keys_of(alloc@) =~~= keys_of(pre));
                    assert(firsts_upto(names, i + 1) == firsts_upto(names, i as int));
                } else {
                    assert(keys_of(alloc@) =~~= keys_of(pre).push(k0));
                    assert(firsts_upto(names, i + 1) == firsts_upto(names, i as int).push(k0));
                }
                if i + 1 < n {
                    assert(rem_before(amount_g, share as int, i + 1) == {
                        let r = rem_before(amount_g, share as int, i as int);
                        r - min(share as int, r)
                    });
                }
                lemma_rem_bounds(amount_g, share as int, i + 1);
            }
        }
        self.user_to_amount = alloc;
    }

    /// The allocation mapping.
    pub fn get_user_to_amount(&self) -> (r: &UserAmounts)
        ensures
            r@ == self.spec_allocation(),
    {
        &self.user_to_amount
    }

    /// The amount in cents.
    pub fn get_amount(&self) -> (r: i64)
        ensures
            r as int == self.spec_amount(),
    {
        self.amount
    }

    /// The expense's name.
    pub fn get_name(&self) -> (r: &String)
        ensures
            r@ == self.spec_name(),
    {
        &self.name
    }

    /// How many participant slots the expense has.
    pub fn num_participants(&self) -> (r: usize)
        ensures
            r == self.participant_names().len(),
    {
        self.participants.len()
    }
}

} // verus!
