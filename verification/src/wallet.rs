//! The balance collection: an ordered sequence of coins with verified
//! query, normalization, and arithmetic operations.

use vstd::prelude::*;
use vstd::string::StringSliceAdditionalSpecFns;
use crate::coin::Coin;
use crate::coin::Entry;
use crate::order::denom_eq;
use crate::order::denom_lt;
use crate::order::lex_lt;
use crate::order::lemma_lex_lt_irreflexive;
use crate::order::lemma_lex_lt_transitive;
use crate::model::amount_of;
use crate::model::sum_for;
use crate::model::sorted;
use crate::model::sorted_le;
use crate::model::no_zero;
use crate::model::is_canonical;
use crate::model::contains_denom;
use crate::model::first_index;
use crate::model::insert_position;
use crate::model::add_entry;
use crate::model::merge_entries;
use crate::model::lemma_first_index;
use crate::model::lemma_first_index_of;
use crate::model::lemma_insert_position_of;
use crate::model::lemma_sum_split;
use crate::model::lemma_sum_push;
use crate::model::lemma_sum_take_succ;
use crate::model::lemma_sum_insert;
use crate::model::lemma_sum_remove;
use crate::model::lemma_sum_update;
use crate::model::lemma_sum_nonneg;
use crate::model::lemma_sum_unique_entry;
use crate::model::lemma_entry_le_sum;
use crate::model::lemma_add_entry_sum;
use crate::model::lemma_add_entry_sorted;
use crate::model::lemma_add_entry_no_zero;
use crate::model::lemma_sorted_le_insert;
use crate::model::lemma_remove_canonical;
use crate::model::lemma_update_same_denom;
use crate::model::lemma_merge_entries_push;

verus! {

/// The model of a coin sequence: each coin as its entry.
pub open spec fn coins_view(s: Seq<Coin>) -> Seq<Entry> {
    Seq::new(s.len(), |i: int| s[i]@)
}

/// The failure of subtraction: the collection held less of the
/// denomination than the attempted amount, which the error carries.
#[derive(Debug, Clone, Copy, PartialEq, Eq, Structural)]
pub enum WalletError {
    Underflow(u128),
}

/// Wallet wraps a vector of coins and provides query, normalization,
/// and arithmetic helpers. It mutates the vector and can be unwrapped
/// when done.
#[derive(Debug)]
pub struct Wallet(pub Vec<Coin>);

impl View for Wallet {
    type V = Seq<Entry>;

    open spec fn view(&self) -> Seq<Entry> {
        coins_view(self.0@)
    }
}

impl Clone for Wallet {
    /// Cloning preserves the entries the wallet stands for.
    fn clone(&self) -> (r: Wallet)
        ensures
            r@ == self@,
    {
        let mut out: Vec<Coin> = Vec::new();
        let mut i: usize = 0;
        while i < self.0.len()
            invariant
                0 <= i <= self.0@.len(),
                out@.len() == i,
                forall|j: int| 0 <= j < i ==> (#[trigger] out@[j]@) == self.0@[j]@,
            decreases self.0@.len() - i,
        {
            out.push(self.0[i].clone());
            i = i + 1;
        }
        let r = Wallet(out);
        proof {
            assert(r@ =~= self@);
        }
        r
    }
}

impl Default for Wallet {
    /// The empty collection.
    fn default() -> (r: Wallet)
        ensures
            r@ == Seq::<Entry>::empty(),
    {
        let r = Wallet(Vec::new());
        proof {
            assert(r@ =~= Seq::<Entry>::empty());
        }
        r
    }
}

/// Position where a coin of denomination `denom` belongs in `v` so
/// that ascending order is kept: before the first coin whose
/// denomination is not below `denom`, at the end if all are below.
fn insert_index(v: &Vec<Coin>, denom: &str) -> (p: usize)
    ensures
        p <= v@.len(),
        p as int == insert_position(coins_view(v@), denom.spec_bytes()),
{
    let ghost s = coins_view(v@);
    let ghost d = denom.spec_bytes();
    let mut i: usize = 0;
    while i < v.len()
        invariant
            0 <= i <= v@.len(),
            s == coins_view(v@),
            d == denom.spec_bytes(),
            forall|j: int| 0 <= j < i ==> lex_lt(#[trigger] s[j].denom, d),
        decreases v@.len() - i,
    {
        if !denom_lt(v[i].denom.as_str(), denom) {
            proof {
                assert(s[i as int].denom == v@[i as int]@.denom);
                lemma_insert_position_of(s, d, i as int);
            }
            return i;
        }
        i = i + 1;
    }
    proof {
        lemma_insert_position_of(s, d, i as int);
    }
    i
}

impl Wallet {
    /// Unwraps the collection into its plain vector of coins,
    /// reflecting whatever form it currently holds.
    pub fn into_vec(self) -> (r: Vec<Coin>)
        ensures
            r == self.0,
            coins_view(r@) == self@,
    {
        self.0
    }

    /// Index of the first coin of the given denomination, if any.
    fn find_idx(&self, denom: &str) -> (r: Option<usize>)
        ensures
            match r {
                Some(i) => contains_denom(self@, denom.spec_bytes()) && i < self.0@.len() && i
                    as int == first_index(self@, denom.spec_bytes()),
                None => !contains_denom(self@, denom.spec_bytes()),
            },
    {
        let ghost s = self@;
        let ghost d = denom.spec_bytes();
        let mut i: usize = 0;
        while i < self.0.len()
            invariant
                0 <= i <= self.0@.len(),
                s == self@,
                d == denom.spec_bytes(),
                forall|j: int| 0 <= j < i ==> (#[trigger] s[j].denom) != d,
            decreases self.0@.len() - i,
        {
            if denom_eq(self.0[i].denom.as_str(), denom) {
                proof {
                    assert(s[i as int].denom == d);
                    lemma_first_index_of(s, d, i as int);
                }
                return Some(i);
            }
            i = i + 1;
        }
        proof {
            if contains_denom(s, d) {
                let w = choose|j: int| 0 <= j < s.len() && (#[trigger] s[j].denom) == d;
                assert(s[w].denom == d);
            }
        }
        None
    }

    /// True when the collection holds at least the required amount of
    /// the required denomination; the first coin of that denomination
    /// decides, and an absent denomination never suffices.
    pub fn has(&self, required: &Coin) -> (r: bool)
        ensures
            r == (contains_denom(self@, required@.denom) && self@[first_index(
                self@,
                required@.denom,
            )].amount >= required@.amount),
    {
        match self.find_idx(required.denom.as_str()) {
            Some(i) => self.0[i].amount >= required.amount,
            None => false,
        }
    }

    /// Adds one coin: the first entry of the same denomination grows
    /// by the coin's amount, or, when the denomination is new, the
    /// coin is inserted at the position that keeps ascending order.
    pub fn add(&mut self, other: Coin)
        requires
            contains_denom(old(self)@, other@.denom) ==> old(self)@[first_index(
                old(self)@,
                other@.denom,
            )].amount + other@.amount <= u128::MAX,
        ensures
            final(self)@ == add_entry(old(self)@, other@),
            forall|d: Seq<u8>| #[trigger]
                sum_for(final(self)@, d) == sum_for(old(self)@, d) + amount_of(other@, d),
            sorted(old(self)@) ==> sorted(final(self)@),
            no_zero(old(self)@) && (other@.amount > 0 || contains_denom(old(self)@, other@.denom))
                ==> no_zero(final(self)@),
    {
        let ghost s0 = self@;
        let ghost e = other@;
        match self.find_idx(other.denom.as_str()) {
            Some(i) => {
                let grown = self.0[i].amount + other.amount;
                let dstr = self.0[i].denom.clone();
                self.0[i] = Coin { denom: dstr, amount: grown };
                proof {
                    assert(self@ =~= s0.update(
                        i as int,
                        Entry { denom: s0[i as int].denom, amount: grown },
                    ));
                    assert(self@ == add_entry(s0, e));
                }
            },
            None => {
                let p = insert_index(&self.0, other.denom.as_str());
                self.0.insert(p, other);
                proof {
                    assert(self@ =~= s0.insert(insert_position(s0, e.denom), e));
                    assert(self@ == add_entry(s0, e));
                }
            },
        }
        proof {
            assert forall|d: Seq<u8>| #[trigger]
                sum_for(self@, d) == sum_for(s0, d) + amount_of(e, d) by {
                lemma_add_entry_sum(s0, e, d);
            }
            if sorted(s0) {
                lemma_add_entry_sorted(s0, e);
            }
            if no_zero(s0) && (e.amount > 0 || contains_denom(s0, e.denom)) {
                lemma_add_entry_no_zero(s0, e);
            }
        }
    }

    /// Adds every coin of `other` to this collection, in the order
    /// those coins appear.
    pub fn merge(&mut self, other: Wallet)
        requires
            forall|d: Seq<u8>| #![trigger sum_for(old(self)@, d), sum_for(other@, d)]
                sum_for(old(self)@, d) + sum_for(other@, d) <= u128::MAX,
        ensures
            final(self)@ == merge_entries(old(self)@, other@),
            forall|d: Seq<u8>| #[trigger]
                sum_for(final(self)@, d) == sum_for(old(self)@, d) + sum_for(other@, d),
            sorted(old(self)@) ==> sorted(final(self)@),
            is_canonical(old(self)@) && no_zero(other@) ==> is_canonical(final(self)@),
    {
        let ghost s0 = self@;
        let ghost o = other@;
        let mut i: usize = 0;
        while i < other.0.len()
            invariant
                0 <= i <= o.len(),
                o == other@,
                self@ == merge_entries(s0, o.take(i as int)),
                forall|d: Seq<u8>| #![trigger sum_for(s0, d), sum_for(o, d)]
                    sum_for(s0, d) + sum_for(o, d) <= u128::MAX,
                forall|d: Seq<u8>| #[trigger]
                    sum_for(self@, d) == sum_for(s0, d) + sum_for(o.take(i as int), d),
                sorted(s0) ==> sorted(self@),
                is_canonical(s0) && no_zero(o) ==> is_canonical(self@),
            decreases o.len() - i,
        {
            let c = other.0[i].clone();
            proof {
                assert(c@ == o[i as int]);
                let d = c@.denom;
                if contains_denom(self@, d) {
                    lemma_first_index(self@, d);
                    lemma_entry_le_sum(self@, first_index(self@, d));
                }
                lemma_sum_take_succ(o, d, i as int);
                lemma_sum_split(o, d, i as int + 1);
                lemma_sum_nonneg(o.skip(i as int + 1), d);
                lemma_sum_nonneg(s0, d);
                lemma_sum_nonneg(o.take(i as int), d);
            }
            let ghost pre = self@;
            self.add(c);
            proof {
                lemma_merge_entries_push(s0, o.take(i as int), c@);
                assert(o.take(i as int).push(c@) =~= o.take(i as int + 1));
                assert forall|d: Seq<u8>| #[trigger]
                    sum_for(self@, d) == sum_for(s0, d) + sum_for(o.take(i as int + 1), d) by {
                    lemma_sum_take_succ(o, d, i as int);
                }
                if is_canonical(s0) && no_zero(o) {
                    assert(o[i as int].amount != 0);
                }
            }
            i = i + 1;
        }
        proof {
            assert(o.take(o.len() as int) =~= o);
        }
    }

    /// Subtracts one coin, consuming the collection. When the first
    /// entry of the coin's denomination holds at least the coin's
    /// amount, the entry shrinks by that amount and disappears
    /// entirely when the remainder is zero. Otherwise — the entry is
    /// too small, or the denomination is absent — the attempt fails
    /// with `Underflow` carrying the attempted amount, and nothing of
    /// the collection survives to show a partial change.
    pub fn subtract(self, other: Coin) -> (r: Result<Wallet, WalletError>)
        ensures
            match r {
                Ok(w) => {
                    &&& contains_denom(self@, other@.denom)
                    &&& self@[first_index(self@, other@.denom)].amount >= other@.amount
                    &&& w@ == (if self@[first_index(self@, other@.denom)].amount == other@.amount {
                        self@.remove(first_index(self@, other@.denom))
                    } else {
                        self@.update(
                            first_index(self@, other@.denom),
                            (Entry {
                                denom: other@.denom,
                                amount: (self@[first_index(self@, other@.denom)].amount
                                    - other@.amount) as u128,
                            }),
                        )
                    })
                    &&& forall|d: Seq<u8>| #[trigger]
                        sum_for(w@, d) == sum_for(self@, d) - amount_of(other@, d)
                    &&& is_canonical(self@) ==> is_canonical(w@)
                },
                Err(e) => {
                    &&& e == WalletError::Underflow(other@.amount)
                    &&& (!contains_denom(self@, other@.denom) || self@[first_index(
                        self@,
                        other@.denom,
                    )].amount < other@.amount)
                },
            },
    {
        let mut w = self;
        let ghost s0 = w@;
        let ghost e = other@;
        match w.find_idx(other.denom.as_str()) {
            Some(i) => {
                if w.0[i].amount >= other.amount {
                    proof {
                        lemma_first_index(s0, e.denom);
                    }
                    let rest = w.0[i].amount - other.amount;
                    if rest == 0 {
                        w.0.remove(i);
                        proof {
                            assert(w@ =~= s0.remove(i as int));
                            assert forall|d: Seq<u8>| #[trigger]
                                sum_for(w@, d) == sum_for(s0, d) - amount_of(e, d) by {
                                lemma_sum_remove(s0, d, i as int);
                            }
                            lemma_remove_canonical(s0, i as int);
                        }
                    } else {
                        let dstr = w.0[i].denom.clone();
                        w.0[i] = Coin { denom: dstr, amount: rest };
                        proof {
                            let shrunk = Entry { denom: e.denom, amount: rest };
                            assert(w@ =~= s0.update(i as int, shrunk));
                            assert forall|d: Seq<u8>| #[trigger]
                                sum_for(w@, d) == sum_for(s0, d) - amount_of(e, d) by {
                                lemma_sum_update(s0, d, i as int, shrunk);
                            }
                            lemma_update_same_denom(s0, i as int, shrunk);
                        }
                    }
                    Ok(w)
                } else {
                    Err(WalletError::Underflow(other.amount))
                }
            },
            None => Err(WalletError::Underflow(other.amount)),
        }
    }

    /// Restores canonical form in place: drops every zero amount,
    /// sorts ascending by denomination, and collapses each run of
    /// equal denominations — however long — into one entry holding the
    /// run's sum. Totals per denomination are preserved.
    pub fn normalize(&mut self)
        requires
            forall|d: Seq<u8>| #[trigger] sum_for(old(self)@, d) <= u128::MAX,
        ensures
            is_canonical(final(self)@),
            forall|d: Seq<u8>| #[trigger] sum_for(final(self)@, d) == sum_for(old(self)@, d),
            forall|i: int, j: int|
                0 <= i < j < final(self)@.len() ==> (#[trigger] final(self)@[i].denom) != (
                #[trigger] final(self)@[j].denom),
    {
        let ghost s0 = self@;
        let kept = without_zeros(&self.0);
        let arranged = sort_coins(&kept);
        proof {
            assert forall|d: Seq<u8>| #[trigger] sum_for(coins_view(arranged@), d) <= u128::MAX by {
                assert(sum_for(coins_view(arranged@), d) == sum_for(coins_view(kept@), d));
                assert(sum_for(coins_view(kept@), d) == sum_for(s0, d));
            }
        }
        let merged = merge_adjacent(&arranged);
        self.0 = merged;
        proof {
            assert forall|d: Seq<u8>| #[trigger] sum_for(self@, d) == sum_for(s0, d) by {
                assert(sum_for(self@, d) == sum_for(coins_view(arranged@), d));
                assert(sum_for(coins_view(arranged@), d) == sum_for(coins_view(kept@), d));
            }
            assert forall|i: int, j: int| 0 <= i < j < self@.len() implies (
            #[trigger] self@[i].denom) != (#[trigger] self@[j].denom) by {
                assert(lex_lt(self@[i].denom, self@[j].denom));
                lemma_lex_lt_irreflexive(self@[i].denom);
            }
        }
    }
}

/// The coins of `v` whose amount is not zero, in order.
fn without_zeros(v: &Vec<Coin>) -> (r: Vec<Coin>)
    ensures
        no_zero(coins_view(r@)),
        forall|d: Seq<u8>| #[trigger]
            sum_for(coins_view(r@), d) == sum_for(coins_view(v@), d),
{
    let ghost cv = coins_view(v@);
    let mut out: Vec<Coin> = Vec::new();
    let mut i: usize = 0;
    while i < v.len()
        invariant
            0 <= i <= cv.len(),
            cv == coins_view(v@),
            no_zero(coins_view(out@)),
            forall|d: Seq<u8>| #[trigger]
                sum_for(coins_view(out@), d) == sum_for(cv.take(i as int), d),
        decreases cv.len() - i,
    {
        let ghost pre = coins_view(out@);
        if v[i].amount != 0 {
            out.push(v[i].clone());
            proof {
                assert(coins_view(out@) =~= pre.push(cv[i as int]));
                assert forall|d: Seq<u8>| #[trigger]
                    sum_for(coins_view(out@), d) == sum_for(cv.take(i as int + 1), d) by {
                    lemma_sum_push(pre, d, cv[i as int]);
                    lemma_sum_take_succ(cv, d, i as int);
                }
                assert(no_zero(coins_view(out@))) by {
                    assert forall|x: int|
                        0 <= x < coins_view(out@).len() implies (#[trigger] coins_view(out@)[
                        x
                    ].amount) != 0 by {
                        if x < pre.len() {
                            assert(coins_view(out@)[x] == pre[x]);
                        }
                    }
                }
            }
        } else {
            proof {
                assert forall|d: Seq<u8>| #[trigger]
                    sum_for(coins_view(out@), d) == sum_for(cv.take(i as int + 1), d) by {
                    lemma_sum_take_succ(cv, d, i as int);
                    assert(amount_of(cv[i as int], d) == 0);
                }
            }
        }
        i = i + 1;
    }
    proof {
        assert(cv.take(cv.len() as int) =~= cv);
    }
    out
}

/// The coins of `v` arranged ascending by denomination (duplicates
/// kept side by side), by insertion into a sorted vector.
fn sort_coins(v: &Vec<Coin>) -> (r: Vec<Coin>)
    ensures
        sorted_le(coins_view(r@)),
        forall|d: Seq<u8>| #[trigger]
            sum_for(coins_view(r@), d) == sum_for(coins_view(v@), d),
        no_zero(coins_view(v@)) ==> no_zero(coins_view(r@)),
{
    let ghost cv = coins_view(v@);
    let mut out: Vec<Coin> = Vec::new();
    let mut i: usize = 0;
    while i < v.len()
        invariant
            0 <= i <= cv.len(),
            cv == coins_view(v@),
            sorted_le(coins_view(out@)),
            forall|d: Seq<u8>| #[trigger]
                sum_for(coins_view(out@), d) == sum_for(cv.take(i as int), d),
            no_zero(cv) ==> no_zero(coins_view(out@)),
        decreases cv.len() - i,
    {
        let ghost pre = coins_view(out@);
        let c = v[i].clone();
        let p = insert_index(&out, c.denom.as_str());
        out.insert(p, c);
        proof {
            assert(coins_view(out@) =~= pre.insert(p as int, cv[i as int]));
            lemma_sorted_le_insert(pre, cv[i as int]);
            assert forall|d: Seq<u8>| #[trigger]
                sum_for(coins_view(out@), d) == sum_for(cv.take(i as int + 1), d) by {
                lemma_sum_insert(pre, d, p as int, cv[i as int]);
                lemma_sum_take_succ(cv, d, i as int);
            }
            if no_zero(cv) {
                assert forall|x: int|
                    0 <= x < coins_view(out@).len() implies (#[trigger] coins_view(out@)[
                    x
                ].amount) != 0 by {
                    if x < p {
                        assert(coins_view(out@)[x] == pre[x]);
                    } else if x > p {
                        assert(coins_view(out@)[x] == pre[x - 1]);
                    } else {
                        assert(coins_view(out@)[x] == cv[i as int]);
                    }
                }
            }
        }
        i = i + 1;
    }
    proof {
        assert(cv.take(cv.len() as int) =~= cv);
    }
    out
}

/// Collapses each run of adjacent equal denominations in the
/// ascending vector `v` into one coin holding the run's sum.
fn merge_adjacent(v: &Vec<Coin>) -> (r: Vec<Coin>)
    requires
        sorted_le(coins_view(v@)),
        no_zero(coins_view(v@)),
        forall|d: Seq<u8>| #[trigger] sum_for(coins_view(v@), d) <= u128::MAX,
    ensures
        is_canonical(coins_view(r@)),
        forall|d: Seq<u8>| #[trigger]
            sum_for(coins_view(r@), d) == sum_for(coins_view(v@), d),
{
    let ghost cv = coins_view(v@);
    let mut out: Vec<Coin> = Vec::new();
    let mut i: usize = 0;
    while i < v.len()
        invariant
            0 <= i <= cv.len(),
            cv == coins_view(v@),
            sorted_le(cv),
            no_zero(cv),
            forall|d: Seq<u8>| #[trigger] sum_for(cv, d) <= u128::MAX,
            sorted(coins_view(out@)),
            no_zero(coins_view(out@)),
            forall|d: Seq<u8>| #[trigger]
                sum_for(coins_view(out@), d) == sum_for(cv.take(i as int), d),
            i == 0 ==> out@.len() == 0,
            i > 0 ==> out@.len() > 0 && coins_view(out@).last().denom == cv[i as int - 1].denom,
        decreases cv.len() - i,
    {
        let ghost pre = coins_view(out@);
        let c = v[i].clone();
        let n = out.len();
        if n > 0 && denom_eq(out[n - 1].denom.as_str(), c.denom.as_str()) {
            let ghost lastd = pre.last().denom;
            proof {
                assert(cv[i as int].denom == lastd);
                lemma_sum_unique_entry(pre, pre.len() - 1);
                lemma_sum_take_succ(cv, lastd, i as int);
                lemma_sum_split(cv, lastd, i as int + 1);
                lemma_sum_nonneg(cv.skip(i as int + 1), lastd);
            }
            let lastc = out.pop().unwrap();
            let grown = lastc.amount + c.amount;
            out.push(Coin { denom: lastc.denom, amount: grown });
            proof {
                let newe = Entry { denom: lastd, amount: grown };
                assert(coins_view(out@) =~= pre.update(pre.len() - 1, newe));
                lemma_update_same_denom(pre, pre.len() - 1, newe);
                assert forall|d: Seq<u8>| #[trigger]
                    sum_for(coins_view(out@), d) == sum_for(cv.take(i as int + 1), d) by {
                    lemma_sum_update(pre, d, pre.len() - 1, newe);
                    lemma_sum_take_succ(cv, d, i as int);
                }
            }
        } else {
            out.push(c);
            proof {
                let t = coins_view(out@);
                assert(t =~= pre.push(cv[i as int]));
                if pre.len() > 0 {
                    assert(pre.last().denom == cv[i as int - 1].denom);
                    assert(lex_lt(pre.last().denom, cv[i as int].denom)) by {
                        assert(lex_lt(cv[i as int - 1].denom, cv[i as int].denom) || cv[i as int
                            - 1].denom == cv[i as int].denom);
                        assert(pre.last().denom != cv[i as int].denom);
                    }
                }
                assert forall|x: int, y: int| 0 <= x < y < t.len() implies lex_lt(
                    #[trigger] t[x].denom,
                    #[trigger] t[y].denom,
                ) by {
                    if y < pre.len() {
                        assert(t[x] == pre[x]);
                        assert(t[y] == pre[y]);
                    } else {
                        assert(t[y] == cv[i as int]);
                        assert(t[x] == pre[x]);
                        if x < pre.len() - 1 {
                            assert(lex_lt(pre[x].denom, pre.last().denom));
                            lemma_lex_lt_transitive(
                                pre[x].denom,
                                pre.last().denom,
                                cv[i as int].denom,
                            );
                        }
                    }
                }
                assert forall|d: Seq<u8>| #[trigger]
                    sum_for(coins_view(out@), d) == sum_for(cv.take(i as int + 1), d) by {
                    lemma_sum_push(pre, d, cv[i as int]);
                    lemma_sum_take_succ(cv, d, i as int);
                }
                assert forall|x: int| 0 <= x < t.len() implies (#[trigger] t[x].amount) != 0 by {
                    if x < pre.len() {
                        assert(t[x] == pre[x]);
                    }
                }
            }
        }
        i = i + 1;
    }
    proof {
        assert(cv.take(cv.len() as int) =~= cv);
    }
    out
}

} // verus!
