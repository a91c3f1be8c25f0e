//! Laws of the balance collection.
//!
//! The central fact is that a canonical collection is determined by
//! its per-denomination totals; idempotence of normalization and
//! commutativity of merging follow from it.

use vstd::prelude::*;
use crate::coin::Entry;
use crate::order::lex_lt;
use crate::order::lemma_lex_lt_asymmetric;
use crate::order::lemma_lex_lt_total;
use crate::model::amount_of;
use crate::model::sum_for;
use crate::model::is_canonical;
use crate::model::contains_denom;
use crate::model::lemma_sum_absent;
use crate::model::lemma_sum_unique_entry;
use crate::model::lemma_canonical_drop_first;

verus! {

/// A canonical collection is determined by its totals: two canonical
/// collections holding the same total in every denomination are the
/// same sequence of entries.
pub proof fn lemma_canonical_unique(a: Seq<Entry>, b: Seq<Entry>)
    requires
        is_canonical(a),
        is_canonical(b),
        forall|d: Seq<u8>| #[trigger] sum_for(a, d) == sum_for(b, d),
    ensures
        a == b,
    decreases a.len(),
{
    if a.len() == 0 && b.len() == 0 {
        assert(a =~= b);
    } else if a.len() == 0 {
        lemma_sum_unique_entry(b, 0);
        assert(sum_for(a, b[0].denom) == 0);
        assert(false);
    } else if b.len() == 0 {
        lemma_sum_unique_entry(a, 0);
        assert(sum_for(b, a[0].denom) == 0);
        assert(false);
    } else {
        let da = a[0].denom;
        let db = b[0].denom;
        if da != db {
            lemma_lex_lt_total(da, db);
            if lex_lt(da, db) {
                assert(!contains_denom(b, da)) by {
                    if contains_denom(b, da) {
                        let j = choose|j: int| 0 <= j < b.len() && (#[trigger] b[j].denom) == da;
                        assert(j != 0);
                        assert(lex_lt(b[0].denom, b[j].denom));
                        lemma_lex_lt_asymmetric(da, db);
                    }
                }
                lemma_sum_absent(b, da);
                lemma_sum_unique_entry(a, 0);
                assert(sum_for(a, da) == sum_for(b, da));
                assert(false);
            } else {
                assert(!contains_denom(a, db)) by {
                    if contains_denom(a, db) {
                        let j = choose|j: int| 0 <= j < a.len() && (#[trigger] a[j].denom) == db;
                        assert(j != 0);
                        assert(lex_lt(a[0].denom, a[j].denom));
                        lemma_lex_lt_asymmetric(db, da);
                    }
                }
                lemma_sum_absent(a, db);
                lemma_sum_unique_entry(b, 0);
                assert(sum_for(a, db) == sum_for(b, db));
                assert(false);
            }
        } else {
            lemma_sum_unique_entry(a, 0);
            lemma_sum_unique_entry(b, 0);
            assert(sum_for(a, da) == sum_for(b, da));
            assert(a[0] =~= b[0]);
            lemma_canonical_drop_first(a);
            lemma_canonical_drop_first(b);
            assert forall|d: Seq<u8>| #[trigger]
                sum_for(a.drop_first(), d) == sum_for(b.drop_first(), d) by {
                assert(sum_for(a, d) == amount_of(a[0], d) + sum_for(a.drop_first(), d));
                assert(sum_for(b, d) == amount_of(b[0], d) + sum_for(b.drop_first(), d));
                assert(sum_for(a, d) == sum_for(b, d));
            }
            lemma_canonical_unique(a.drop_first(), b.drop_first());
            assert(a =~= b) by {
                assert(a.len() == b.len());
                assert forall|i: int| 0 <= i < a.len() implies a[i] == b[i] by {
                    if i > 0 {
                        assert(a[i] == a.drop_first()[i - 1]);
                        assert(b[i] == b.drop_first()[i - 1]);
                    }
                }
            }
        }
    }
}

/// Normalizing an already-canonical collection yields the same
/// collection: any canonical result holding the same totals as a
/// canonical input — which is all normalization's contract leaves
/// open — is that input itself.
pub proof fn lemma_normalize_idempotent(before: Seq<Entry>, after: Seq<Entry>)
    requires
        is_canonical(before),
        is_canonical(after),
        forall|d: Seq<u8>| #[trigger] sum_for(after, d) == sum_for(before, d),
    ensures
        after == before,
{
    lemma_canonical_unique(after, before);
}

/// Merging is commutative up to normalization: normalizing `a` merged
/// with `b` and normalizing `b` merged with `a` give the same
/// canonical collection, because each denomination's total is the sum
/// of the two collections' totals either way round.
pub proof fn lemma_merge_commutes(a: Seq<Entry>, b: Seq<Entry>, ab: Seq<Entry>, ba: Seq<Entry>)
    requires
        is_canonical(ab),
        is_canonical(ba),
        forall|d: Seq<u8>| #[trigger] sum_for(ab, d) == sum_for(a, d) + sum_for(b, d),
        forall|d: Seq<u8>| #[trigger] sum_for(ba, d) == sum_for(b, d) + sum_for(a, d),
    ensures
        ab == ba,
{
    assert forall|d: Seq<u8>| #[trigger] sum_for(ab, d) == sum_for(ba, d) by {
        assert(sum_for(ab, d) == sum_for(a, d) + sum_for(b, d));
        assert(sum_for(ba, d) == sum_for(b, d) + sum_for(a, d));
    }
    lemma_canonical_unique(ab, ba);
}

} // verus!
