//! The phoneme inventory of `rspanphon`, as the verifier sees it.
//!
//! The table itself is an opaque value. What it holds is named by
//! [`entries`] and [`symbol_limit`], and the contracts below say, in terms of
//! those names, what the three functions of `rspanphon` that this library
//! calls return. None of these contracts is proved: they restate the source
//! of `rspanphon` and, for the table that is compiled into it, its data.

use crate::features::{has_width, is_ternary, is_ternary_matrix};
use crate::segment::segmented;
use rspanphon::featuretable;
use vstd::prelude::*;

verus! {

/// `rspanphon::featuretable::FeatureTable`, declared so that it can stand in
/// fields and signatures. Nothing inside it is visible to the verifier.
#[verifier::external_type_specification]
#[verifier::external_body]
pub struct ExFeatureTable(featuretable::FeatureTable);

/// The map from phoneme symbol to feature vector that a table holds (its
/// field `ft`), symbols as sequences of codepoints.
pub uninterp spec fn entries(t: featuretable::FeatureTable) -> Map<Seq<char>, Seq<i8>>;

/// The bound on symbol length that a table was built with (its field
/// `ph_max_len`), which limits how far the segmenter looks ahead.
pub uninterp spec fn symbol_limit(t: featuretable::FeatureTable) -> nat;

/// The inventory holds a symbol, none of its symbols is empty, and each has
/// fewer codepoints than `limit`, so that segmentation with that bound can
/// find it.
pub open spec fn proper_symbols(inv: Map<Seq<char>, Seq<i8>>, limit: nat) -> bool {
    &&& exists|p: Seq<char>| inv.contains_key(p)
    &&& forall|p: Seq<char>| #[trigger] inv.contains_key(p) ==> p.len() > 0
    &&& forall|p: Seq<char>| #[trigger] inv.contains_key(p) ==> p.len() < limit
}

/// Every vector of the inventory is ternary and all have the same number of
/// components.
pub open spec fn uniform_ternary(inv: Map<Seq<char>, Seq<i8>>) -> bool {
    &&& forall|p: Seq<char>| #[trigger] inv.contains_key(p) ==> is_ternary(inv[p])
    &&& forall|p: Seq<char>, q: Seq<char>|
        #[trigger] inv.contains_key(p) && #[trigger] inv.contains_key(q) ==> inv[p].len()
            == inv[q].len()
}

/// The vectors of those symbols of `ps` that the inventory holds, in the
/// order of `ps`; symbols that it does not hold contribute nothing.
pub open spec fn known_vectors(inv: Map<Seq<char>, Seq<i8>>, ps: Seq<Seq<char>>) -> Seq<Seq<i8>>
    decreases ps.len(),
{
    if ps.len() == 0 {
        Seq::empty()
    } else if inv.contains_key(ps.last()) {
        known_vectors(inv, ps.drop_last()).push(inv[ps.last()])
    } else {
        known_vectors(inv, ps.drop_last())
    }
}

/// Every symbol of `ps` is in the inventory.
pub open spec fn all_known(inv: Map<Seq<char>, Seq<i8>>, ps: Seq<Seq<char>>) -> bool {
    forall|i: int| 0 <= i < ps.len() ==> inv.contains_key(#[trigger] ps[i])
}

/// The feature matrix of a sequence of symbols: row `i` is the vector that
/// the inventory gives for symbol `i`.
pub open spec fn encoded(inv: Map<Seq<char>, Seq<i8>>, ps: Seq<Seq<char>>) -> Seq<Seq<i8>> {
    Seq::new(ps.len(), |i: int| inv[ps[i]])
}

/// The number of features of the inventory: the length of its vectors, and 0
/// for an inventory without entries.
pub open spec fn feature_count(inv: Map<Seq<char>, Seq<i8>>) -> nat {
    if exists|p: Seq<char>| inv.contains_key(p) {
        inv[choose|p: Seq<char>| inv.contains_key(p)].len()
    } else {
        0
    }
}

/// In a uniform inventory every vector has `feature_count` components.
pub proof fn lemma_feature_count(inv: Map<Seq<char>, Seq<i8>>, p: Seq<char>)
    requires
        uniform_ternary(inv),
        inv.contains_key(p),
    ensures
        inv[p].len() == feature_count(inv),
{
}

/// The encoding of known symbols from a uniform ternary inventory is a
/// ternary matrix with `feature_count` columns.
pub proof fn lemma_encoded_shape(inv: Map<Seq<char>, Seq<i8>>, ps: Seq<Seq<char>>)
    requires
        uniform_ternary(inv),
        all_known(inv, ps),
    ensures
        is_ternary_matrix(encoded(inv, ps)),
        has_width(encoded(inv, ps), feature_count(inv)),
{
    assert forall|i: int| 0 <= i < ps.len() implies is_ternary(#[trigger] encoded(inv, ps)[i])
        && encoded(inv, ps)[i].len() == feature_count(inv) by {
        assert(inv.contains_key(ps[i]));
        lemma_feature_count(inv, ps[i]);
    }
}

/// Passing over unknown symbols loses a row for each of them: the known
/// vectors are as many as the symbols exactly when every symbol is known, and
/// then they are the encoding of the symbols.
pub proof fn lemma_known_vectors(inv: Map<Seq<char>, Seq<i8>>, ps: Seq<Seq<char>>)
    ensures
        known_vectors(inv, ps).len() <= ps.len(),
        known_vectors(inv, ps).len() == ps.len() <==> all_known(inv, ps),
        all_known(inv, ps) ==> known_vectors(inv, ps) == encoded(inv, ps),
    decreases ps.len(),
{
    if ps.len() > 0 {
        let front = ps.drop_last();
        lemma_known_vectors(inv, front);
        if all_known(inv, ps) {
            assert forall|i: int| 0 <= i < front.len() implies inv.contains_key(
                #[trigger] front[i],
            ) by {
                assert(front[i] == ps[i]);
            }
            assert(inv.contains_key(ps[ps.len() - 1]));
            assert(known_vectors(inv, ps) =~= encoded(inv, ps));
        } else if inv.contains_key(ps.last()) {
            if all_known(inv, front) {
                assert forall|i: int| 0 <= i < ps.len() implies inv.contains_key(
                    #[trigger] ps[i],
                ) by {
                    if i < front.len() {
                        assert(front[i] == ps[i]);
                    }
                }
            }
        }
    } else {
        assert(known_vectors(inv, ps) =~= encoded(inv, ps));
    }
}

/// `FeatureTable::new` reads the table that is compiled into `rspanphon`.
///
/// Each feature value is produced by its `to_numeric`, which yields only -1,
/// 0 and +1, and the records come from a CSV reader that refuses records of
/// unequal length, so all vectors have the same number of components.
///
/// The other clauses are facts of the compiled-in data: it has records, and
/// the first field of none of them is empty. `ph_max_len` is set to the
/// greatest length in bytes of a symbol, and the symbols of that length hold
/// codepoints of more than one byte, so every symbol has fewer codepoints
/// than `ph_max_len`.
pub assume_specification[ featuretable::FeatureTable::new ]() -> (t: featuretable::FeatureTable)
    ensures
        uniform_ternary(entries(t)),
        exists|p: Seq<char>| entries(t).contains_key(p),
        forall|p: Seq<char>| #[trigger] entries(t).contains_key(p) ==> p.len() > 0,
        forall|p: Seq<char>| #[trigger] entries(t).contains_key(p) ==> p.len() < symbol_limit(t),
;

/// `FeatureTable::phonemes` scans `s` from left to right. As long as
/// codepoints are left, it tries the prefixes of what is left, from
/// `ph_max_len - 1` codepoints down to one (a prefix ends where the text
/// ends), and takes the first that is a key of the table: that prefix is
/// collected and the scan goes on behind it. Where none is a key, one
/// codepoint is dropped. That is [`segmented`].
pub assume_specification[ featuretable::FeatureTable::phonemes ](
    t: &featuretable::FeatureTable,
    s: &str,
) -> (r: Vec<String>)
    ensures
        r.deep_view() == segmented(entries(*t), symbol_limit(*t), s@),
;

/// `FeatureTable::phonemes_to_vectors` walks `ps` in order and, for each
/// symbol that the table holds, appends a copy of its vector; other symbols
/// are passed over.
pub assume_specification[ featuretable::FeatureTable::phonemes_to_vectors ](
    t: &featuretable::FeatureTable,
    ps: Vec<String>,
) -> (r: Vec<Vec<i8>>)
    ensures
        r.deep_view() == known_vectors(entries(*t), ps.deep_view()),
;

} // verus!
