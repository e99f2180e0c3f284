//! Segmentation of a word into phonemes, as a function of the inventory, the
//! bound on symbol length and the word.
//!
//! The word is read from left to right. At each position the longest symbol
//! of the inventory that begins there is taken, among the symbols that have
//! fewer codepoints than the bound; where no symbol begins, one codepoint is
//! passed over.

use vstd::prelude::*;

verus! {

/// The greatest number of codepoints that a symbol may have to be found by a
/// segmenter with the bound `limit`: one less than the bound.
pub open spec fn reach(limit: nat) -> nat {
    if limit == 0 {
        0
    } else {
        (limit - 1) as nat
    }
}

/// The length of the longest prefix of `s` that is a symbol of the inventory
/// and has at most `k` codepoints; 0 where no such prefix is a symbol.
pub open spec fn longest_match(inv: Map<Seq<char>, Seq<i8>>, s: Seq<char>, k: nat) -> nat
    decreases k,
{
    if k == 0 {
        0
    } else if k <= s.len() && inv.contains_key(s.take(k as int)) {
        k
    } else {
        longest_match(inv, s, (k - 1) as nat)
    }
}

/// The phonemes of the word `s`: the longest symbol that begins the word,
/// followed by the phonemes of what comes after it; or, where no symbol
/// begins the word, the phonemes of the word without its first codepoint.
pub open spec fn segmented(inv: Map<Seq<char>, Seq<i8>>, limit: nat, s: Seq<char>) -> Seq<
    Seq<char>,
>
    decreases s.len(),
{
    if s.len() == 0 {
        Seq::empty()
    } else {
        let k = longest_match(inv, s, reach(limit));
        if 0 < k <= s.len() {
            seq![s.take(k as int)] + segmented(inv, limit, s.skip(k as int))
        } else {
            segmented(inv, limit, s.skip(1))
        }
    }
}

/// `p` is the piece of `s` that begins at position `at`.
pub open spec fn piece_of(s: Seq<char>, at: int, p: Seq<char>) -> bool {
    0 <= at && at + p.len() <= s.len() && p == s.subrange(at, at + p.len())
}

/// Each position of `v` moved by `d`.
pub open spec fn shifted(v: Seq<int>, d: int) -> Seq<int> {
    Seq::new(v.len(), |i: int| v[i] + d)
}

/// The positions of `s` at which its phonemes begin, one for each phoneme
/// of [`segmented`].
pub open spec fn segment_starts(inv: Map<Seq<char>, Seq<i8>>, limit: nat, s: Seq<char>) -> Seq<
    int,
>
    decreases s.len(),
{
    if s.len() == 0 {
        Seq::empty()
    } else {
        let k = longest_match(inv, s, reach(limit));
        if 0 < k <= s.len() {
            seq![0int] + shifted(segment_starts(inv, limit, s.skip(k as int)), k as int)
        } else {
            shifted(segment_starts(inv, limit, s.skip(1)), 1)
        }
    }
}

/// A symbol of the inventory, short enough to be found, begins at position
/// `i` of `s`.
pub open spec fn symbol_at(inv: Map<Seq<char>, Seq<i8>>, limit: nat, s: Seq<char>, i: int) -> bool {
    exists|j: int|
        i < j <= s.len() && j - i < limit && inv.contains_key(#[trigger] s.subrange(i, j))
}

/// The longest match is a symbol that begins `s`, of at most `k` codepoints,
/// and no longer prefix of at most `k` codepoints is a symbol.
pub proof fn lemma_longest_match(inv: Map<Seq<char>, Seq<i8>>, s: Seq<char>, k: nat)
    ensures
        longest_match(inv, s, k) <= k,
        longest_match(inv, s, k) <= s.len(),
        longest_match(inv, s, k) > 0 ==> inv.contains_key(
            s.take(longest_match(inv, s, k) as int),
        ),
        forall|j: int|
            longest_match(inv, s, k) < j <= k && j <= s.len() ==> !inv.contains_key(
                #[trigger] s.take(j),
            ),
    decreases k,
{
    if k > 0 && !(k <= s.len() && inv.contains_key(s.take(k as int))) {
        lemma_longest_match(inv, s, (k - 1) as nat);
    }
}

/// Every phoneme of a word is a symbol of the inventory, is not empty and
/// has fewer codepoints than the bound.
pub proof fn lemma_segmented_symbols(inv: Map<Seq<char>, Seq<i8>>, limit: nat, s: Seq<char>)
    ensures
        forall|i: int|
            0 <= i < segmented(inv, limit, s).len() ==> inv.contains_key(
                #[trigger] segmented(inv, limit, s)[i],
            ) && 0 < segmented(inv, limit, s)[i].len() < limit,
    decreases s.len(),
{
    if s.len() > 0 {
        let k = longest_match(inv, s, reach(limit));
        lemma_longest_match(inv, s, reach(limit));
        if 0 < k <= s.len() {
            let rest = segmented(inv, limit, s.skip(k as int));
            lemma_segmented_symbols(inv, limit, s.skip(k as int));
            assert(segmented(inv, limit, s) == seq![s.take(k as int)] + rest);
            assert forall|i: int| 0 <= i < segmented(inv, limit, s).len() implies inv.contains_key(
                #[trigger] segmented(inv, limit, s)[i],
            ) && 0 < segmented(inv, limit, s)[i].len() < limit by {
                if i > 0 {
                    assert(segmented(inv, limit, s)[i] == rest[i - 1]);
                } else {
                    assert(segmented(inv, limit, s)[0] == s.take(k as int));
                    assert(s.take(k as int).len() == k);
                }
            }
        } else {
            lemma_segmented_symbols(inv, limit, s.skip(1));
            assert(segmented(inv, limit, s) == segmented(inv, limit, s.skip(1)));
        }
    }
}

/// The empty word has no phonemes.
pub proof fn lemma_segmented_of_empty(inv: Map<Seq<char>, Seq<i8>>, limit: nat, s: Seq<char>)
    requires
        s.len() == 0,
    ensures
        segmented(inv, limit, s).len() == 0,
{
}

/// The longest symbol wins: where a symbol `p` of the inventory begins the
/// word, the first phoneme of the word is a symbol that begins it and is at
/// least as long as `p`, no longer symbol begins the word, and segmentation
/// goes on behind that first phoneme.
pub proof fn lemma_longest_symbol_first(
    inv: Map<Seq<char>, Seq<i8>>,
    limit: nat,
    s: Seq<char>,
    p: Seq<char>,
)
    requires
        inv.contains_key(p),
        0 < p.len() < limit,
        p.len() <= s.len(),
        s.take(p.len() as int) == p,
    ensures
        segmented(inv, limit, s).len() > 0,
        segmented(inv, limit, s)[0].len() >= p.len(),
        segmented(inv, limit, s)[0] == s.take(segmented(inv, limit, s)[0].len() as int),
        inv.contains_key(segmented(inv, limit, s)[0]),
        forall|j: int|
            segmented(inv, limit, s)[0].len() < j <= s.len() && j < limit ==> !inv.contains_key(
                #[trigger] s.take(j),
            ),
        segmented(inv, limit, s) == seq![segmented(inv, limit, s)[0]] + segmented(
            inv,
            limit,
            s.skip(segmented(inv, limit, s)[0].len() as int),
        ),
{
    lemma_longest_match(inv, s, reach(limit));
    let m = longest_match(inv, s, reach(limit));
    assert(m >= p.len()) by {
        if m < p.len() {
            assert(!inv.contains_key(s.take(p.len() as int)));
        }
    }
    assert(segmented(inv, limit, s)[0] == s.take(m as int));
}

/// A codepoint at which no symbol begins is passed over: where no symbol of
/// the inventory begins the word, its phonemes are those of the word without
/// its first codepoint.
pub proof fn lemma_unmatched_skipped(inv: Map<Seq<char>, Seq<i8>>, limit: nat, s: Seq<char>)
    requires
        s.len() > 0,
        forall|j: int| 0 < j <= s.len() && j < limit ==> !inv.contains_key(#[trigger] s.take(j)),
    ensures
        segmented(inv, limit, s) == segmented(inv, limit, s.skip(1)),
{
    lemma_longest_match(inv, s, reach(limit));
    let m = longest_match(inv, s, reach(limit));
    if m > 0 {
        assert(!inv.contains_key(s.take(m as int)));
    }
}

/// A word has no phonemes exactly when no symbol of the inventory begins at
/// any of its positions.
pub proof fn lemma_segmented_empty(inv: Map<Seq<char>, Seq<i8>>, limit: nat, s: Seq<char>)
    ensures
        segmented(inv, limit, s).len() == 0 <==> forall|i: int|
            0 <= i < s.len() ==> !symbol_at(inv, limit, s, i),
    decreases s.len(),
{
    if s.len() > 0 {
        lemma_longest_match(inv, s, reach(limit));
        let m = longest_match(inv, s, reach(limit));
        if m > 0 {
            assert(inv.contains_key(s.subrange(0, m as int)));
            assert(symbol_at(inv, limit, s, 0));
        } else {
            let t = s.skip(1);
            lemma_segmented_empty(inv, limit, t);
            assert(!symbol_at(inv, limit, s, 0)) by {
                if symbol_at(inv, limit, s, 0) {
                    let j = choose|j: int|
                        0 < j <= s.len() && j - 0 < limit && inv.contains_key(
                            #[trigger] s.subrange(0, j),
                        );
                    assert(!inv.contains_key(s.take(j)));
                }
            }
            assert forall|i: int| 0 <= i < t.len() implies (symbol_at(inv, limit, t, i)
                <==> symbol_at(inv, limit, s, i + 1)) by {
                if symbol_at(inv, limit, t, i) {
                    let j = choose|j: int|
                        i < j <= t.len() && j - i < limit && inv.contains_key(
                            #[trigger] t.subrange(i, j),
                        );
                    assert(t.subrange(i, j) =~= s.subrange(i + 1, j + 1));
                }
                if symbol_at(inv, limit, s, i + 1) {
                    let j = choose|j: int|
                        i + 1 < j <= s.len() && j - (i + 1) < limit && inv.contains_key(
                            #[trigger] s.subrange(i + 1, j),
                        );
                    assert(t.subrange(i, j - 1) =~= s.subrange(i + 1, j));
                }
            }
            if forall|i: int| 0 <= i < s.len() ==> !symbol_at(inv, limit, s, i) {
                assert forall|i: int| 0 <= i < t.len() implies !symbol_at(inv, limit, t, i) by {
                    assert(!symbol_at(inv, limit, s, i + 1));
                }
            }
            if forall|i: int| 0 <= i < t.len() ==> !symbol_at(inv, limit, t, i) {
                assert forall|i: int| 0 <= i < s.len() implies !symbol_at(inv, limit, s, i) by {
                    if i > 0 {
                        assert(!symbol_at(inv, limit, t, i - 1));
                    }
                }
            }
        }
    }
}

/// The phonemes of a word are pieces of the word, in the order of the word
/// and without overlap: phoneme `i` is the text from its start to its end,
/// and every later phoneme starts at or behind that end.
pub proof fn lemma_phonemes_in_order(inv: Map<Seq<char>, Seq<i8>>, limit: nat, s: Seq<char>)
    ensures
        segment_starts(inv, limit, s).len() == segmented(inv, limit, s).len(),
        forall|i: int|
            0 <= i < segmented(inv, limit, s).len() ==> piece_of(
                s,
                segment_starts(inv, limit, s)[i],
                #[trigger] segmented(inv, limit, s)[i],
            ),
        forall|i: int, j: int|
            0 <= i < j < segmented(inv, limit, s).len() ==> segment_starts(inv, limit, s)[i]
                + (#[trigger] segmented(inv, limit, s)[i]).len() <= #[trigger] segment_starts(
                inv,
                limit,
                s,
            )[j],
    decreases s.len(),
{
    if s.len() > 0 {
        let k = longest_match(inv, s, reach(limit));
        let segs = segmented(inv, limit, s);
        let starts = segment_starts(inv, limit, s);
        if 0 < k <= s.len() {
            let t = s.skip(k as int);
            let rest = segmented(inv, limit, t);
            let rest_starts = segment_starts(inv, limit, t);
            lemma_phonemes_in_order(inv, limit, t);
            assert(segs == seq![s.take(k as int)] + rest);
            assert(starts == seq![0int] + shifted(rest_starts, k as int));
            assert forall|i: int| 0 <= i < segs.len() implies piece_of(
                s,
                starts[i],
                #[trigger] segs[i],
            ) by {
                if i > 0 {
                    let q = rest[i - 1];
                    let at = rest_starts[i - 1];
                    assert(piece_of(t, at, q));
                    assert(segs[i] == q);
                    assert(starts[i] == at + k);
                    assert(t.subrange(at, at + q.len()) =~= s.subrange(at + k, at + k + q.len()));
                } else {
                    assert(segs[0] == s.take(k as int));
                }
            }
            assert forall|i: int, j: int| 0 <= i < j < segs.len() implies starts[i] + (
            #[trigger] segs[i]).len() <= #[trigger] starts[j] by {
                assert(piece_of(t, rest_starts[j - 1], rest[j - 1]));
                assert(segs[j] == rest[j - 1]);
                assert(starts[j] == rest_starts[j - 1] + k);
                if i > 0 {
                    assert(segs[i] == rest[i - 1]);
                    assert(starts[i] == rest_starts[i - 1] + k);
                } else {
                    assert(segs[0] == s.take(k as int));
                }
            }
        } else {
            let t = s.skip(1);
            let rest = segmented(inv, limit, t);
            let rest_starts = segment_starts(inv, limit, t);
            lemma_phonemes_in_order(inv, limit, t);
            assert(segs == rest);
            assert(starts == shifted(rest_starts, 1));
            assert forall|i: int| 0 <= i < segs.len() implies piece_of(
                s,
                starts[i],
                #[trigger] segs[i],
            ) by {
                let q = rest[i];
                let at = rest_starts[i];
                assert(piece_of(t, at, q));
                assert(t.subrange(at, at + q.len()) =~= s.subrange(at + 1, at + 1 + q.len()));
            }
        }
    }
}

} // verus!
