//! The mathematical model of a balance collection.
//!
//! A collection is modelled as a sequence of [`Entry`] values. The
//! spec functions here say what the canonical form is, what each
//! denomination's total is, and what the arithmetic operators do to a
//! sequence; the lemmas relate those notions.

use vstd::prelude::*;
use crate::coin::Entry;
use crate::order::lex_lt;
use crate::order::lex_le;
use crate::order::lemma_lex_lt_irreflexive;
use crate::order::lemma_lex_lt_total;
use crate::order::lemma_lex_lt_transitive;

verus! {

/// What one entry adds to the total held in denomination `d`.
pub open spec fn amount_of(e: Entry, d: Seq<u8>) -> int {
    if e.denom == d {
        e.amount as int
    } else {
        0
    }
}

/// Total amount held in denomination `d` across all entries of `s`.
pub open spec fn sum_for(s: Seq<Entry>, d: Seq<u8>) -> int
    decreases s.len(),
{
    if s.len() == 0 {
        0
    } else {
        amount_of(s[0], d) + sum_for(s.drop_first(), d)
    }
}

/// Entries are strictly ascending by denomination.
pub open spec fn sorted(s: Seq<Entry>) -> bool {
    forall|i: int, j: int|
        0 <= i < j < s.len() ==> lex_lt(#[trigger] s[i].denom, #[trigger] s[j].denom)
}

/// No entry holds a zero amount.
pub open spec fn no_zero(s: Seq<Entry>) -> bool {
    forall|i: int| 0 <= i < s.len() ==> (#[trigger] s[i].amount) != 0
}

/// Canonical form: strictly sorted by denomination and free of zero
/// amounts; strict sortedness also rules out duplicate denominations.
pub open spec fn is_canonical(s: Seq<Entry>) -> bool {
    sorted(s) && no_zero(s)
}

/// Some entry carries denomination `d`.
pub open spec fn contains_denom(s: Seq<Entry>, d: Seq<u8>) -> bool {
    exists|i: int| 0 <= i < s.len() && (#[trigger] s[i].denom) == d
}

/// Index of the first entry carrying denomination `d` (meaningful only
/// when one exists).
pub open spec fn first_index(s: Seq<Entry>, d: Seq<u8>) -> int
    decreases s.len(),
{
    if s.len() == 0 {
        0
    } else if s[0].denom == d {
        0
    } else {
        1 + first_index(s.drop_first(), d)
    }
}

/// Position where an entry of denomination `d` belongs: before the
/// first entry whose denomination is not below `d`, or at the end if
/// every denomination is below `d`.
pub open spec fn insert_position(s: Seq<Entry>, d: Seq<u8>) -> int
    decreases s.len(),
{
    if s.len() == 0 {
        0
    } else if !lex_lt(s[0].denom, d) {
        0
    } else {
        1 + insert_position(s.drop_first(), d)
    }
}

/// The collection after adding one entry: the first entry of the same
/// denomination grows by the added amount, or, when the denomination
/// is new, the entry is inserted at its sorted position.
pub open spec fn add_entry(s: Seq<Entry>, e: Entry) -> Seq<Entry> {
    if contains_denom(s, e.denom) {
        let i = first_index(s, e.denom);
        s.update(i, Entry { denom: s[i].denom, amount: (s[i].amount + e.amount) as u128 })
    } else {
        s.insert(insert_position(s, e.denom), e)
    }
}

/// The collection after adding every entry of `o`, in order.
pub open spec fn merge_entries(s: Seq<Entry>, o: Seq<Entry>) -> Seq<Entry>
    decreases o.len(),
{
    if o.len() == 0 {
        s
    } else {
        merge_entries(add_entry(s, o[0]), o.drop_first())
    }
}

/// `first_index` really names the first match.
pub proof fn lemma_first_index(s: Seq<Entry>, d: Seq<u8>)
    requires
        contains_denom(s, d),
    ensures
        0 <= first_index(s, d) < s.len(),
        s[first_index(s, d)].denom == d,
        forall|j: int| 0 <= j < first_index(s, d) ==> (#[trigger] s[j].denom) != d,
    decreases s.len(),
{
    if s[0].denom == d {
    } else {
        let w = choose|i: int| 0 <= i < s.len() && (#[trigger] s[i].denom) == d;
        assert(s.drop_first()[w - 1] == s[w]);
        assert(contains_denom(s.drop_first(), d));
        lemma_first_index(s.drop_first(), d);
        let k = first_index(s.drop_first(), d);
        assert(s[1 + k] == s.drop_first()[k]);
        assert forall|j: int| 0 <= j < 1 + k implies (#[trigger] s[j].denom) != d by {
            if j > 0 {
                assert(s[j] == s.drop_first()[j - 1]);
            }
        }
    }
}

/// Conversely, a match with no earlier match is the first match.
pub proof fn lemma_first_index_of(s: Seq<Entry>, d: Seq<u8>, i: int)
    requires
        0 <= i < s.len(),
        s[i].denom == d,
        forall|j: int| 0 <= j < i ==> (#[trigger] s[j].denom) != d,
    ensures
        contains_denom(s, d),
        first_index(s, d) == i,
    decreases s.len(),
{
    if i == 0 {
    } else {
        assert(s[0].denom != d);
        assert(s.drop_first()[i - 1] == s[i]);
        assert forall|j: int| 0 <= j < i - 1 implies (#[trigger] s.drop_first()[j].denom) != d by {
            assert(s.drop_first()[j] == s[j + 1]);
        }
        lemma_first_index_of(s.drop_first(), d, i - 1);
    }
}

/// Characterization of the insert position: everything before it is
/// below `d`, and the entry at it (if any) is not.
pub proof fn lemma_insert_position(s: Seq<Entry>, d: Seq<u8>)
    ensures
        0 <= insert_position(s, d) <= s.len(),
        forall|j: int| 0 <= j < insert_position(s, d) ==> lex_lt(#[trigger] s[j].denom, d),
        insert_position(s, d) < s.len() ==> !lex_lt(s[insert_position(s, d)].denom, d),
    decreases s.len(),
{
    if s.len() > 0 && lex_lt(s[0].denom, d) {
        lemma_insert_position(s.drop_first(), d);
        let k = insert_position(s.drop_first(), d);
        assert forall|j: int| 0 <= j < 1 + k implies lex_lt(#[trigger] s[j].denom, d) by {
            if j > 0 {
                assert(s[j] == s.drop_first()[j - 1]);
            }
        }
        if 1 + k < s.len() {
            assert(s[1 + k] == s.drop_first()[k]);
        }
    }
}

/// Conversely, a position with everything before it below `d` and the
/// entry at it (if any) not below `d` is the insert position.
pub proof fn lemma_insert_position_of(s: Seq<Entry>, d: Seq<u8>, p: int)
    requires
        0 <= p <= s.len(),
        forall|j: int| 0 <= j < p ==> lex_lt(#[trigger] s[j].denom, d),
        p < s.len() ==> !lex_lt(s[p].denom, d),
    ensures
        insert_position(s, d) == p,
    decreases s.len(),
{
    if p == 0 {
    } else {
        assert(lex_lt(s[0].denom, d));
        assert forall|j: int| 0 <= j < p - 1 implies lex_lt(
            #[trigger] s.drop_first()[j].denom,
            d,
        ) by {
            assert(s.drop_first()[j] == s[j + 1]);
        }
        if p - 1 < s.drop_first().len() {
            assert(s.drop_first()[p - 1] == s[p]);
        }
        lemma_insert_position_of(s.drop_first(), d, p - 1);
    }
}

/// Splitting a sequence splits each denomination's total.
pub proof fn lemma_sum_split(s: Seq<Entry>, d: Seq<u8>, i: int)
    requires
        0 <= i <= s.len(),
    ensures
        sum_for(s, d) == sum_for(s.take(i), d) + sum_for(s.skip(i), d),
    decreases i,
{
    if i == 0 {
        assert(s.take(0) =~= Seq::<Entry>::empty());
        assert(s.skip(0) =~= s);
    } else {
        lemma_sum_split(s.drop_first(), d, i - 1);
        assert(s.take(i)[0] == s[0]);
        assert(s.take(i).drop_first() =~= s.drop_first().take(i - 1));
        assert(s.skip(i) =~= s.drop_first().skip(i - 1));
    }
}

/// Appending one entry adds what it holds.
pub proof fn lemma_sum_push(s: Seq<Entry>, d: Seq<u8>, e: Entry)
    ensures
        sum_for(s.push(e), d) == sum_for(s, d) + amount_of(e, d),
    decreases s.len(),
{
    if s.len() == 0 {
        assert(s.push(e)[0] == e);
        assert(s.push(e).drop_first() =~= Seq::<Entry>::empty());
        assert(sum_for(Seq::<Entry>::empty(), d) == 0);
    } else {
        assert(s.push(e)[0] == s[0]);
        assert(s.push(e).drop_first() =~= s.drop_first().push(e));
        lemma_sum_push(s.drop_first(), d, e);
        assert(sum_for(s.push(e), d) == amount_of(s[0], d) + sum_for(s.drop_first().push(e), d));
    }
}

/// Taking one more entry adds what that entry holds.
pub proof fn lemma_sum_take_succ(s: Seq<Entry>, d: Seq<u8>, i: int)
    requires
        0 <= i < s.len(),
    ensures
        sum_for(s.take(i + 1), d) == sum_for(s.take(i), d) + amount_of(s[i], d),
{
    assert(s.take(i + 1) =~= s.take(i).push(s[i]));
    lemma_sum_push(s.take(i), d, s[i]);
}

/// Inserting one entry adds what it holds.
pub proof fn lemma_sum_insert(s: Seq<Entry>, d: Seq<u8>, i: int, e: Entry)
    requires
        0 <= i <= s.len(),
    ensures
        sum_for(s.insert(i, e), d) == sum_for(s, d) + amount_of(e, d),
    decreases i,
{
    if i == 0 {
        assert(s.insert(0, e)[0] == e);
        assert(s.insert(0, e).drop_first() =~= s);
    } else {
        assert(s.insert(i, e)[0] == s[0]);
        assert(s.insert(i, e).drop_first() =~= s.drop_first().insert(i - 1, e));
        lemma_sum_insert(s.drop_first(), d, i - 1, e);
    }
}

/// Removing one entry removes what it held.
pub proof fn lemma_sum_remove(s: Seq<Entry>, d: Seq<u8>, i: int)
    requires
        0 <= i < s.len(),
    ensures
        sum_for(s.remove(i), d) == sum_for(s, d) - amount_of(s[i], d),
    decreases i,
{
    if i == 0 {
        assert(s.remove(0) =~= s.drop_first());
    } else {
        assert(s.remove(i)[0] == s[0]);
        assert(s.remove(i).drop_first() =~= s.drop_first().remove(i - 1));
        assert(s.drop_first()[i - 1] == s[i]);
        lemma_sum_remove(s.drop_first(), d, i - 1);
    }
}

/// Replacing one entry swaps what it held for the new amount.
pub proof fn lemma_sum_update(s: Seq<Entry>, d: Seq<u8>, i: int, e: Entry)
    requires
        0 <= i < s.len(),
    ensures
        sum_for(s.update(i, e), d) == sum_for(s, d) - amount_of(s[i], d) + amount_of(e, d),
{
    assert(s.update(i, e) =~= s.remove(i).insert(i, e));
    lemma_sum_remove(s, d, i);
    lemma_sum_insert(s.remove(i), d, i, e);
}

/// Every total is non-negative.
pub proof fn lemma_sum_nonneg(s: Seq<Entry>, d: Seq<u8>)
    ensures
        sum_for(s, d) >= 0,
    decreases s.len(),
{
    if s.len() > 0 {
        lemma_sum_nonneg(s.drop_first(), d);
    }
}

/// A denomination carried by no entry has total zero.
pub proof fn lemma_sum_absent(s: Seq<Entry>, d: Seq<u8>)
    requires
        !contains_denom(s, d),
    ensures
        sum_for(s, d) == 0,
    decreases s.len(),
{
    if s.len() > 0 {
        assert(s[0].denom != d);
        assert forall|j: int| 0 <= j < s.drop_first().len() implies (#[trigger] s.drop_first()[
            j
        ].denom) != d by {
            assert(s.drop_first()[j] == s[j + 1]);
        }
        lemma_sum_absent(s.drop_first(), d);
    }
}

/// Dropping the first entry preserves sortedness and zero-freeness.
pub proof fn lemma_canonical_drop_first(s: Seq<Entry>)
    requires
        s.len() > 0,
    ensures
        sorted(s) ==> sorted(s.drop_first()),
        no_zero(s) ==> no_zero(s.drop_first()),
{
    let t = s.drop_first();
    assert forall|i: int| 0 <= i < t.len() implies t[i] == s[i + 1] by {}
    if sorted(s) {
        assert forall|i: int, j: int| 0 <= i < j < t.len() implies lex_lt(
            #[trigger] t[i].denom,
            #[trigger] t[j].denom,
        ) by {
            assert(t[i] == s[i + 1]);
            assert(t[j] == s[j + 1]);
        }
    }
    if no_zero(s) {
        assert forall|i: int| 0 <= i < t.len() implies (#[trigger] t[i].amount) != 0 by {
            assert(t[i] == s[i + 1]);
        }
    }
}

/// In a strictly sorted collection each entry carries the whole total
/// of its denomination.
pub proof fn lemma_sum_unique_entry(s: Seq<Entry>, i: int)
    requires
        sorted(s),
        0 <= i < s.len(),
    ensures
        sum_for(s, s[i].denom) == s[i].amount as int,
    decreases s.len(),
{
    let d = s[i].denom;
    if i == 0 {
        assert(!contains_denom(s.drop_first(), d)) by {
            if contains_denom(s.drop_first(), d) {
                let j = choose|j: int|
                    0 <= j < s.drop_first().len() && (#[trigger] s.drop_first()[j].denom) == d;
                assert(s.drop_first()[j] == s[j + 1]);
                assert(lex_lt(s[0].denom, s[j + 1].denom));
                lemma_lex_lt_irreflexive(d);
            }
        }
        lemma_sum_absent(s.drop_first(), d);
    } else {
        assert(s[0].denom != d) by {
            assert(lex_lt(s[0].denom, s[i].denom));
            lemma_lex_lt_irreflexive(d);
        }
        lemma_canonical_drop_first(s);
        assert(s.drop_first()[i - 1] == s[i]);
        lemma_sum_unique_entry(s.drop_first(), i - 1);
    }
}

/// Each entry's amount is at most its denomination's total.
pub proof fn lemma_entry_le_sum(s: Seq<Entry>, i: int)
    requires
        0 <= i < s.len(),
    ensures
        s[i].amount as int <= sum_for(s, s[i].denom),
{
    let d = s[i].denom;
    lemma_sum_split(s, d, i);
    assert(s.skip(i)[0] == s[i]);
    assert(s.skip(i).drop_first() =~= s.skip(i + 1));
    assert(sum_for(s.skip(i), d) == amount_of(s[i], d) + sum_for(s.skip(i + 1), d));
    lemma_sum_nonneg(s.take(i), d);
    lemma_sum_nonneg(s.skip(i + 1), d);
}

/// Adding an entry changes exactly its denomination's total, by its
/// amount.
pub proof fn lemma_add_entry_sum(s: Seq<Entry>, e: Entry, d: Seq<u8>)
    requires
        contains_denom(s, e.denom) ==> s[first_index(s, e.denom)].amount + e.amount <= u128::MAX,
    ensures
        sum_for(add_entry(s, e), d) == sum_for(s, d) + amount_of(e, d),
{
    if contains_denom(s, e.denom) {
        lemma_first_index(s, e.denom);
        let i = first_index(s, e.denom);
        let grown = Entry { denom: s[i].denom, amount: (s[i].amount + e.amount) as u128 };
        lemma_sum_update(s, d, i, grown);
    } else {
        lemma_insert_position(s, e.denom);
        lemma_sum_insert(s, d, insert_position(s, e.denom), e);
    }
}

/// Adding an entry preserves strict sortedness.
pub proof fn lemma_add_entry_sorted(s: Seq<Entry>, e: Entry)
    requires
        sorted(s),
    ensures
        sorted(add_entry(s, e)),
{
    if contains_denom(s, e.denom) {
        lemma_first_index(s, e.denom);
        let i = first_index(s, e.denom);
        let t = add_entry(s, e);
        assert forall|x: int, y: int| 0 <= x < y < t.len() implies lex_lt(
            #[trigger] t[x].denom,
            #[trigger] t[y].denom,
        ) by {
            assert(t[x].denom == s[x].denom);
            assert(t[y].denom == s[y].denom);
        }
    } else {
        lemma_insert_position(s, e.denom);
        let p = insert_position(s, e.denom);
        let t = s.insert(p, e);
        assert forall|x: int, y: int| 0 <= x < y < t.len() implies lex_lt(
            #[trigger] t[x].denom,
            #[trigger] t[y].denom,
        ) by {
            if p < s.len() {
                assert(s[p].denom != e.denom);
                lemma_lex_lt_total(e.denom, s[p].denom);
            }
            if x < p && y == p {
                assert(t[x] == s[x]);
            } else if x < p && y > p {
                assert(t[x] == s[x]);
                assert(t[y] == s[y - 1]);
            } else if x == p && y > p {
                assert(t[y] == s[y - 1]);
                assert(lex_lt(e.denom, s[p].denom));
                if y - 1 > p {
                    lemma_lex_lt_transitive(e.denom, s[p].denom, s[y - 1].denom);
                }
            } else if x > p {
                assert(t[x] == s[x - 1]);
                assert(t[y] == s[y - 1]);
            } else {
                assert(x < p && y < p);
                assert(t[x] == s[x]);
                assert(t[y] == s[y]);
            }
        }
    }
}

/// Adding an entry leaves no zero amount behind, provided a zero
/// amount is only added to an existing entry.
pub proof fn lemma_add_entry_no_zero(s: Seq<Entry>, e: Entry)
    requires
        no_zero(s),
        contains_denom(s, e.denom) ==> s[first_index(s, e.denom)].amount + e.amount <= u128::MAX,
        e.amount > 0 || contains_denom(s, e.denom),
    ensures
        no_zero(add_entry(s, e)),
{
    let t = add_entry(s, e);
    if contains_denom(s, e.denom) {
        lemma_first_index(s, e.denom);
        let i = first_index(s, e.denom);
        assert forall|x: int| 0 <= x < t.len() implies (#[trigger] t[x].amount) != 0 by {
            if x != i {
                assert(t[x] == s[x]);
            }
        }
    } else {
        lemma_insert_position(s, e.denom);
        let p = insert_position(s, e.denom);
        assert forall|x: int| 0 <= x < t.len() implies (#[trigger] t[x].amount) != 0 by {
            if x < p {
                assert(t[x] == s[x]);
            } else if x > p {
                assert(t[x] == s[x - 1]);
            }
        }
    }
}

/// Entries are ascending by denomination, duplicates allowed.
pub open spec fn sorted_le(s: Seq<Entry>) -> bool {
    forall|i: int, j: int|
        0 <= i < j < s.len() ==> lex_le(#[trigger] s[i].denom, #[trigger] s[j].denom)
}

/// Inserting an entry at its insert position keeps the entries
/// ascending.
pub proof fn lemma_sorted_le_insert(s: Seq<Entry>, e: Entry)
    requires
        sorted_le(s),
    ensures
        sorted_le(s.insert(insert_position(s, e.denom), e)),
{
    lemma_insert_position(s, e.denom);
    let p = insert_position(s, e.denom);
    let t = s.insert(p, e);
    assert forall|x: int, y: int| 0 <= x < y < t.len() implies lex_le(
        #[trigger] t[x].denom,
        #[trigger] t[y].denom,
    ) by {
        if p < s.len() {
            lemma_lex_lt_total(e.denom, s[p].denom);
        }
        if x < p && y == p {
            assert(t[x] == s[x]);
        } else if x < p && y > p {
            assert(t[x] == s[x]);
            assert(t[y] == s[y - 1]);
        } else if x == p && y > p {
            assert(t[y] == s[y - 1]);
            assert(lex_le(e.denom, s[p].denom));
            if y - 1 > p {
                if lex_lt(e.denom, s[p].denom) && lex_lt(s[p].denom, s[y - 1].denom) {
                    lemma_lex_lt_transitive(e.denom, s[p].denom, s[y - 1].denom);
                }
            }
        } else if x > p {
            assert(t[x] == s[x - 1]);
            assert(t[y] == s[y - 1]);
        } else {
            assert(x < p && y < p);
            assert(t[x] == s[x]);
            assert(t[y] == s[y]);
        }
    }
}

/// Removing an entry keeps the collection canonical.
pub proof fn lemma_remove_canonical(s: Seq<Entry>, i: int)
    requires
        0 <= i < s.len(),
    ensures
        sorted(s) ==> sorted(s.remove(i)),
        no_zero(s) ==> no_zero(s.remove(i)),
{
    let t = s.remove(i);
    if sorted(s) {
        assert forall|x: int, y: int| 0 <= x < y < t.len() implies lex_lt(
            #[trigger] t[x].denom,
            #[trigger] t[y].denom,
        ) by {
            assert(t[x] == (if x < i { s[x] } else { s[x + 1] }));
            assert(t[y] == (if y < i { s[y] } else { s[y + 1] }));
        }
    }
    if no_zero(s) {
        assert forall|x: int| 0 <= x < t.len() implies (#[trigger] t[x].amount) != 0 by {
            assert(t[x] == (if x < i { s[x] } else { s[x + 1] }));
        }
    }
}

/// Replacing an entry's amount, denomination unchanged, keeps the
/// collection sorted; a nonzero new amount also keeps it zero-free.
pub proof fn lemma_update_same_denom(s: Seq<Entry>, i: int, e: Entry)
    requires
        0 <= i < s.len(),
        e.denom == s[i].denom,
    ensures
        sorted(s) ==> sorted(s.update(i, e)),
        sorted_le(s) ==> sorted_le(s.update(i, e)),
        no_zero(s) && e.amount != 0 ==> no_zero(s.update(i, e)),
{
    let t = s.update(i, e);
    assert forall|x: int| 0 <= x < t.len() implies (#[trigger] t[x].denom) == s[x].denom by {
        if x != i {
            assert(t[x] == s[x]);
        }
    }
    if no_zero(s) && e.amount != 0 {
        assert forall|x: int| 0 <= x < t.len() implies (#[trigger] t[x].amount) != 0 by {
            if x != i {
                assert(t[x] == s[x]);
            }
        }
    }
}

/// Merging `o` then one more entry is adding that entry to the merge.
pub proof fn lemma_merge_entries_push(s: Seq<Entry>, o: Seq<Entry>, e: Entry)
    ensures
        merge_entries(s, o.push(e)) == add_entry(merge_entries(s, o), e),
    decreases o.len(),
{
    if o.len() == 0 {
        assert(o.push(e)[0] == e);
        assert(o.push(e).drop_first() =~= Seq::<Entry>::empty());
        assert(merge_entries(add_entry(s, e), Seq::<Entry>::empty()) == add_entry(s, e));
        assert(merge_entries(s, o.push(e)) == merge_entries(add_entry(s, e), o.push(e).drop_first()));
    } else {
        assert(o.push(e)[0] == o[0]);
        assert(o.push(e).drop_first() =~= o.drop_first().push(e));
        lemma_merge_entries_push(add_entry(s, o[0]), o.drop_first(), e);
    }
}

} // verus!
