//! The feature table: one handle for segmenting words, encoding phonemes,
//! pooling feature vectors and measuring the distance between words.

use crate::distance::{
    edit_distance, feature_distance, lemma_edit_distance_self, lemma_edit_distance_symmetric,
};
use crate::error::FeatureError;
use crate::features::{
    as_ints, binarize, binarized, column_sum, has_width, is_binary_matrix, is_ternary_matrix,
    lemma_binarized_of_ternary, lemma_common_width_uniform, row_sums, sum_rows,
};
use crate::inventory::{
    all_known, encoded, entries, feature_count, lemma_encoded_shape, lemma_known_vectors,
    proper_symbols, symbol_limit, uniform_ternary,
};
use crate::segment::{lemma_segmented_symbols, segmented};
use rspanphon::featuretable;
use vstd::prelude::*;

verus! {

/// The value in column `j` of the binarised encoding of the single symbol
/// `p`.
pub open spec fn phoneme_bit(inv: Map<Seq<char>, Seq<i8>>, p: Seq<char>, j: int) -> int {
    binarized(encoded(inv, seq![p]))[0][j] as int
}

/// The sum, over the first `n` symbols of `ps`, of each symbol's own value in
/// column `j`.
pub open spec fn phoneme_bits_sum(
    inv: Map<Seq<char>, Seq<i8>>,
    ps: Seq<Seq<char>>,
    j: int,
    n: nat,
) -> int
    decreases n,
{
    if n == 0 {
        0
    } else {
        phoneme_bits_sum(inv, ps, j, (n - 1) as nat) + phoneme_bit(inv, ps[n - 1], j)
    }
}

proof fn lemma_column_sum_by_phoneme(
    inv: Map<Seq<char>, Seq<i8>>,
    ps: Seq<Seq<char>>,
    j: int,
    n: nat,
)
    requires
        n <= ps.len(),
    ensures
        column_sum(binarized(encoded(inv, ps)), j, n) == phoneme_bits_sum(inv, ps, j, n),
    decreases n,
{
    if n > 0 {
        lemma_column_sum_by_phoneme(inv, ps, j, (n - 1) as nat);
        assert(seq![ps[n - 1]][0] == ps[n - 1]);
    }
}

/// Pooling a word is pooling its phonemes one by one: each entry of the bag
/// of features of `ps` is the sum of what the symbols of `ps`, each encoded
/// and binarised on its own, have in that column.
pub proof fn lemma_bag_sums_phonemes(inv: Map<Seq<char>, Seq<i8>>, ps: Seq<Seq<char>>)
    ensures
        forall|j: int|
            0 <= j < row_sums(binarized(encoded(inv, ps))).len() ==> #[trigger] row_sums(
                binarized(encoded(inv, ps)),
            )[j] == phoneme_bits_sum(inv, ps, j, ps.len()),
{
    let bag = row_sums(binarized(encoded(inv, ps)));
    assert forall|j: int| 0 <= j < bag.len() implies #[trigger] bag[j] == phoneme_bits_sum(
        inv,
        ps,
        j,
        ps.len(),
    ) by {
        lemma_column_sum_by_phoneme(inv, ps, j, ps.len());
    }
}

/// A phoneme inventory with the operations that are defined over it.
///
/// The inventory is the one compiled into `rspanphon`. It is read once, when
/// the table is made, and never changes afterwards.
pub struct IpaFeatureTable {
    table: featuretable::FeatureTable,
}

impl IpaFeatureTable {
    #[verifier::type_invariant]
    spec fn well_formed(self) -> bool {
        &&& uniform_ternary(entries(self.table))
        &&& proper_symbols(entries(self.table), symbol_limit(self.table))
    }

    /// The inventory: the feature vector of each phoneme symbol.
    pub closed spec fn inventory(&self) -> Map<Seq<char>, Seq<i8>> {
        entries(self.table)
    }

    /// The bound on symbol length that limits how far segmentation looks
    /// ahead: it finds the symbols that have fewer codepoints than this.
    pub closed spec fn lookahead(&self) -> nat {
        symbol_limit(self.table)
    }

    /// The phonemes of the word `s`.
    pub open spec fn segmentation(&self, s: Seq<char>) -> Seq<Seq<char>> {
        segmented(self.inventory(), self.lookahead(), s)
    }

    /// The feature matrix of the word `s`: one row for each of its phonemes.
    pub open spec fn word_matrix(&self, s: Seq<char>) -> Seq<Seq<i8>> {
        encoded(self.inventory(), self.segmentation(s))
    }

    /// The feature edit distance between the words `s1` and `s2`.
    pub open spec fn word_distance(&self, s1: Seq<char>, s2: Seq<char>) -> nat {
        edit_distance(self.word_matrix(s1), self.word_matrix(s2))
    }

    /// Makes a table over the built-in inventory. The inventory is not
    /// empty; its symbols are not empty and short enough for segmentation to
    /// find them; its vectors are ternary and all of one length.
    pub fn new() -> (t: Self)
        ensures
            uniform_ternary(t.inventory()),
            exists|p: Seq<char>| t.inventory().contains_key(p),
            forall|p: Seq<char>| #[trigger] t.inventory().contains_key(p) ==> p.len() > 0,
            forall|p: Seq<char>|
                #[trigger] t.inventory().contains_key(p) ==> p.len() < t.lookahead(),
    {
        IpaFeatureTable { table: featuretable::FeatureTable::new() }
    }

    /// Splits the word `s` into the phonemes of the inventory, in the order
    /// in which they occur: at each position the longest symbol that begins
    /// there, and nothing for a codepoint at which no symbol begins. Every
    /// phoneme returned is a symbol of the inventory and not empty, and the
    /// empty word has no phonemes.
    pub fn phonemes(&self, s: &str) -> (r: Vec<String>)
        ensures
            r.deep_view() == self.segmentation(s@),
            all_known(self.inventory(), r.deep_view()),
            forall|i: int| 0 <= i < r.len() ==> (#[trigger] r[i]@).len() > 0,
            s@.len() == 0 ==> r.len() == 0,
    {
        let r = self.table.phonemes(s);
        proof {
            lemma_segmented_symbols(self.inventory(), self.lookahead(), s@);
            assert(r.deep_view().len() == r.len());
            assert forall|i: int| 0 <= i < r.len() implies (#[trigger] r[i]@).len() > 0 by {
                assert(r.deep_view()[i] == r[i]@);
            }
        }
        r
    }

    /// Encodes a sequence of phoneme symbols as a feature matrix, one row per
    /// symbol. A symbol that is not in the inventory is an error; no row is
    /// ever left out or made up.
    pub fn phonemes_to_vectors(&self, ps: Vec<String>) -> (r: Result<Vec<Vec<i8>>, FeatureError>)
        ensures
            all_known(self.inventory(), ps.deep_view()) <==> r is Ok,
            r is Err ==> r == Err::<Vec<Vec<i8>>, FeatureError>(FeatureError::UnknownPhoneme),
            r is Ok ==> r->Ok_0.deep_view() == encoded(self.inventory(), ps.deep_view()),
            r is Ok ==> r->Ok_0.len() == ps.len(),
            r is Ok ==> is_ternary_matrix(r->Ok_0.deep_view()),
            r is Ok ==> has_width(r->Ok_0.deep_view(), feature_count(self.inventory())),
    {
        let n = ps.len();
        let ghost symbols = ps.deep_view();
        // The table passes over a symbol that it does not hold, so a row is
        // missing exactly when some symbol is unknown.
        let vs = self.table.phonemes_to_vectors(ps);
        proof {
            use_type_invariant(self);
            lemma_known_vectors(self.inventory(), symbols);
            assert(vs.deep_view().len() == vs.len());
        }
        if vs.len() == n {
            proof {
                lemma_encoded_shape(self.inventory(), symbols);
            }
            Ok(vs)
        } else {
            Err(FeatureError::UnknownPhoneme)
        }
    }

    /// The feature matrix of the word `s`: the vectors of its phonemes, in
    /// order.
    pub fn word_to_vectors(&self, s: &str) -> (r: Vec<Vec<i8>>)
        ensures
            r.deep_view() == self.word_matrix(s@),
            r.len() == self.segmentation(s@).len(),
            s@.len() == 0 ==> r.len() == 0,
            is_ternary_matrix(r.deep_view()),
            has_width(r.deep_view(), feature_count(self.inventory())),
    {
        let ps = self.phonemes(s);
        let ghost symbols = ps.deep_view();
        let vs = self.table.phonemes_to_vectors(ps);
        proof {
            use_type_invariant(self);
            lemma_known_vectors(self.inventory(), symbols);
            lemma_encoded_shape(self.inventory(), symbols);
            assert(vs.deep_view().len() == vs.len());
        }
        vs
    }

    /// The binarised feature matrix of the word `s`: +1 becomes 1, and both 0
    /// and -1 become 0.
    pub fn word_to_binary_vectors(&self, s: &str) -> (r: Vec<Vec<i8>>)
        ensures
            r.deep_view() == binarized(self.word_matrix(s@)),
            r.len() == self.segmentation(s@).len(),
            s@.len() == 0 ==> r.len() == 0,
            is_binary_matrix(r.deep_view()),
            has_width(r.deep_view(), feature_count(self.inventory())),
    {
        let vs = self.word_to_vectors(s);
        let r = binarize(&vs);
        proof {
            lemma_binarized_of_ternary(vs.deep_view());
            assert(r.deep_view().len() == r.len());
        }
        r
    }

    /// The bag of features of a sequence of phoneme symbols: for each feature
    /// the number of symbols that have it.
    ///
    /// An empty sequence is refused with `EmptyInput`, and a symbol that is
    /// not in the inventory with `UnknownPhoneme`.
    pub fn bag_of_features(&self, ps: Vec<String>) -> (r: Result<Vec<u64>, FeatureError>)
        ensures
            r is Ok <==> ps.len() > 0 && all_known(self.inventory(), ps.deep_view()),
            ps.len() == 0 <==> r == Err::<Vec<u64>, FeatureError>(FeatureError::EmptyInput),
            !all_known(self.inventory(), ps.deep_view()) <==> r == Err::<Vec<u64>, FeatureError>(
                FeatureError::UnknownPhoneme,
            ),
            r is Ok ==> as_ints(r->Ok_0@) == row_sums(
                binarized(encoded(self.inventory(), ps.deep_view())),
            ),
            r is Ok ==> r->Ok_0.len() == feature_count(self.inventory()),
    {
        let ghost symbols = ps.deep_view();
        match self.phonemes_to_vectors(ps) {
            Err(e) => Err(e),
            Ok(vs) => {
                let bs = binarize(&vs);
                proof {
                    lemma_binarized_of_ternary(vs.deep_view());
                    if vs.len() > 0 {
                        lemma_common_width_uniform(
                            bs.deep_view(),
                            bs.deep_view().len(),
                            feature_count(self.inventory()),
                        );
                    }
                }
                let r = sum_rows(&bs);
                proof {
                    assert(vs.deep_view().len() == vs.len());
                    assert(bs.deep_view().len() == bs.len());
                    assert(symbols.len() == ps.len());
                    if r is Ok {
                        assert(as_ints(r->Ok_0@).len() == r->Ok_0.len());
                    }
                }
                r
            },
        }
    }

    /// The bag of features of the word `s`: the element-wise sum of the
    /// binarised vectors of its phonemes.
    ///
    /// A word without phonemes, the empty word among them, is refused with
    /// `EmptyInput`.
    pub fn word_to_bag_of_features(&self, s: &str) -> (r: Result<Vec<u64>, FeatureError>)
        ensures
            self.segmentation(s@).len() == 0 <==> r is Err,
            r is Err ==> r == Err::<Vec<u64>, FeatureError>(FeatureError::EmptyInput),
            r is Ok ==> as_ints(r->Ok_0@) == row_sums(binarized(self.word_matrix(s@))),
            r is Ok ==> r->Ok_0.len() == feature_count(self.inventory()),
            s@.len() == 0 ==> r is Err,
    {
        let ps = self.phonemes(s);
        proof {
            assert(ps.deep_view().len() == ps.len());
        }
        self.bag_of_features(ps)
    }

    /// The feature edit distance between two words: the distance of their
    /// feature matrices. A word is at distance 0 from itself.
    pub fn feature_edit_distance(&self, s1: &str, s2: &str) -> (d: u128)
        ensures
            d == self.word_distance(s1@, s2@),
            s1@ == s2@ ==> d == 0,
    {
        let v1 = self.word_to_vectors(s1);
        let v2 = self.word_to_vectors(s2);
        feature_distance(&v1, &v2)
    }

    /// Two tables that hold the same inventory, with the same bound on symbol
    /// length, split every word into the same phonemes and give it the same
    /// feature matrix.
    pub proof fn lemma_equal_tables_agree(&self, other: &Self, s: Seq<char>)
        requires
            self.inventory() == other.inventory(),
            self.lookahead() == other.lookahead(),
        ensures
            self.segmentation(s) == other.segmentation(s),
            self.word_matrix(s) == other.word_matrix(s),
    {
    }

    /// The distance between two words does not depend on their order.
    pub proof fn lemma_word_distance_symmetric(&self, s1: Seq<char>, s2: Seq<char>)
        ensures
            self.word_distance(s1, s2) == self.word_distance(s2, s1),
    {
        lemma_edit_distance_symmetric(self.word_matrix(s1), self.word_matrix(s2));
    }

    /// Every word is at distance 0 from itself.
    pub proof fn lemma_word_distance_self(&self, s: Seq<char>)
        ensures
            self.word_distance(s, s) == 0,
    {
        lemma_edit_distance_self(self.word_matrix(s));
    }
}

} // verus!
