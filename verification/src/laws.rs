//! What holds of every squeezed text, proved over the model.

use vstd::prelude::*;
use crate::model::{
    embeds, has_repeat, is_repeat, is_subsequence, kept_positions, lands_at, run_lengths,
    squeezed, without,
};

verus! {

/// Squeezing goes from left to right: a character added at the end is dropped
/// where it is the needle and follows the needle, and is kept otherwise,
/// whatever came before.
pub proof fn lemma_squeezed_push(text: Seq<char>, needle: char, c: char)
    ensures
        squeezed(text.push(c), needle) == if c == needle && text.len() > 0 && text.last()
            == needle {
            squeezed(text, needle)
        } else {
            squeezed(text, needle).push(c)
        },
{
    assert(text.push(c).drop_last() == text);
}

/// A text and its squeezed form are empty together, and where they are not
/// they end in the same character.
pub proof fn lemma_squeezed_last(text: Seq<char>, needle: char)
    ensures
        squeezed(text, needle).len() == 0 <==> text.len() == 0,
        text.len() > 0 ==> squeezed(text, needle).last() == text.last(),
    decreases text.len(),
{
    if text.len() > 0 {
        lemma_squeezed_last(text.drop_last(), needle);
    }
}

/// Whether a position is a repeat depends on the text up to that position only.
proof fn lemma_repeat_in_prefix(text: Seq<char>, needle: char, i: int)
    requires
        i < text.len() - 1,
    ensures
        is_repeat(text.drop_last(), needle, i) == is_repeat(text, needle, i),
{
}

/// Squeezing never lengthens a text, and it keeps the length exactly where
/// there is nothing to take out, that is where the needle nowhere stands
/// beside itself: then the text stays as it is. A text without the needle is
/// such a text.
pub proof fn lemma_squeeze_length(text: Seq<char>, needle: char)
    ensures
        squeezed(text, needle).len() <= text.len(),
        squeezed(text, needle).len() == text.len() <==> !has_repeat(text, needle),
        squeezed(text, needle) == text <==> !has_repeat(text, needle),
        !text.contains(needle) ==> squeezed(text, needle) == text,
    decreases text.len(),
{
    if text.len() > 0 {
        let rest = text.drop_last();
        let last = text.len() - 1;
        lemma_squeeze_length(rest, needle);
        if has_repeat(rest, needle) {
            let i = choose|i: int| is_repeat(rest, needle, i);
            lemma_repeat_in_prefix(text, needle, i);
        }
        if has_repeat(text, needle) && !is_repeat(text, needle, last) {
            let i = choose|i: int| is_repeat(text, needle, i);
            lemma_repeat_in_prefix(text, needle, i);
        }
        if !has_repeat(text, needle) {
            assert(!is_repeat(text, needle, last));
            assert(rest.push(text.last()) == text);
        }
    } else {
        assert(text == Seq::<char>::empty());
    }
    if !text.contains(needle) && has_repeat(text, needle) {
        let i = choose|i: int| is_repeat(text, needle, i);
        assert(text[i] == needle);
    }
}

/// In a squeezed text the needle nowhere stands beside itself.
pub proof fn lemma_squeezed_has_no_repeat(text: Seq<char>, needle: char)
    ensures
        !has_repeat(squeezed(text, needle), needle),
    decreases text.len(),
{
    let result = squeezed(text, needle);
    if text.len() > 0 {
        let rest = text.drop_last();
        lemma_squeezed_has_no_repeat(rest, needle);
        lemma_squeezed_last(rest, needle);
        if has_repeat(result, needle) {
            let i = choose|i: int| is_repeat(result, needle, i);
            if i < squeezed(rest, needle).len() {
                assert(is_repeat(squeezed(rest, needle), needle, i));
            }
        }
    } else if has_repeat(result, needle) {
        let i = choose|i: int| is_repeat(result, needle, i);
    }
}

/// Squeezing twice with the same needle gives what squeezing once gives.
pub proof fn lemma_squeeze_idempotent(text: Seq<char>, needle: char)
    ensures
        squeezed(squeezed(text, needle), needle) == squeezed(text, needle),
{
    lemma_squeezed_has_no_repeat(text, needle);
    lemma_squeeze_length(squeezed(text, needle), needle);
}

/// The kept positions are exactly the positions that are no repeats, and they
/// show how the squeezed text lies in the original: in the same order, each
/// character unchanged.
pub proof fn lemma_kept_positions(text: Seq<char>, needle: char)
    ensures
        embeds(kept_positions(text, needle), squeezed(text, needle), text),
        forall|i: int|
            0 <= i < text.len() ==> (#[trigger] kept_positions(text, needle).contains(i)
                <==> !is_repeat(text, needle, i)),
    decreases text.len(),
{
    let kept = kept_positions(text, needle);
    if text.len() > 0 {
        let rest = text.drop_last();
        let last = text.len() - 1;
        let before = kept_positions(rest, needle);
        lemma_kept_positions(rest, needle);
        assert forall|i: int| 0 <= i < text.len() implies (#[trigger] kept.contains(i)
            <==> !is_repeat(text, needle, i)) by {
            if i < last {
                lemma_repeat_in_prefix(text, needle, i);
                assert(before.contains(i) <==> !is_repeat(rest, needle, i));
                if before.contains(i) {
                    let k = choose|k: int| 0 <= k < before.len() && before[k] == i;
                    assert(kept[k] == i);
                }
                if kept.contains(i) {
                    let k = choose|k: int| 0 <= k < kept.len() && kept[k] == i;
                    assert(before[k] == i);
                }
            } else if is_repeat(text, needle, last) {
                if kept.contains(i) {
                    let k = choose|k: int| 0 <= k < kept.len() && kept[k] == i;
                    assert(before[k] < rest.len());
                }
            } else {
                assert(kept[before.len() as int] == last);
            }
        }
    }
}

/// The squeezed text can be had from the original by deletions alone.
pub proof fn lemma_squeeze_is_subsequence(text: Seq<char>, needle: char)
    ensures
        is_subsequence(squeezed(text, needle), text),
{
    lemma_kept_positions(text, needle);
}

/// Squeezing deletes needles and nothing else: the characters other than the
/// needle are the same before and after, in the same order.
pub proof fn lemma_other_characters_unchanged(text: Seq<char>, needle: char)
    ensures
        without(squeezed(text, needle), needle) == without(text, needle),
    decreases text.len(),
{
    reveal(Seq::filter);
    if text.len() > 0 {
        let rest = text.drop_last();
        lemma_other_characters_unchanged(rest, needle);
        if !is_repeat(text, needle, text.len() - 1) {
            assert(squeezed(text, needle).drop_last() == squeezed(rest, needle));
        }
    }
}

/// A text that ends in `c` has at least one run of `c`.
proof fn lemma_last_run(text: Seq<char>, c: char)
    requires
        text.len() > 0,
        text.last() == c,
    ensures
        run_lengths(text, c).len() > 0,
    decreases text.len(),
{
    if is_repeat(text, c, text.len() - 1) {
        lemma_last_run(text.drop_last(), c);
    }
}

/// Squeezing on the needle leaves the runs of every other character as they
/// are: as many of them, in the same order, each of the same length.
pub proof fn lemma_other_runs_unchanged(text: Seq<char>, needle: char, other: char)
    requires
        other != needle,
    ensures
        run_lengths(squeezed(text, needle), other) == run_lengths(text, other),
    decreases text.len(),
{
    if text.len() > 0 {
        let rest = text.drop_last();
        let last = text.len() - 1;
        lemma_other_runs_unchanged(rest, needle, other);
        lemma_squeezed_last(rest, needle);
        if !is_repeat(text, needle, last) {
            let result = squeezed(text, needle);
            assert(result.drop_last() == squeezed(rest, needle));
            assert(is_repeat(result, other, result.len() - 1) == is_repeat(text, other, last));
        }
    }
}

/// Squeezing leaves as many runs of the needle as there were, each of them one
/// character long.
pub proof fn lemma_needle_runs_become_single(text: Seq<char>, needle: char)
    ensures
        run_lengths(squeezed(text, needle), needle) == Seq::new(
            run_lengths(text, needle).len(),
            |k: int| 1nat,
        ),
    decreases text.len(),
{
    let runs = run_lengths(text, needle);
    let result = squeezed(text, needle);
    if text.len() > 0 {
        let rest = text.drop_last();
        let last = text.len() - 1;
        lemma_needle_runs_become_single(rest, needle);
        lemma_squeezed_last(rest, needle);
        if is_repeat(text, needle, last) {
            lemma_last_run(rest, needle);
        } else {
            assert(result.drop_last() == squeezed(rest, needle));
            assert(!is_repeat(result, needle, result.len() - 1));
        }
    }
    assert(run_lengths(result, needle) =~= Seq::new(runs.len(), |k: int| 1nat));
}

/// Characters are told apart exactly, so a letter in the other case is another
/// character than the needle. Two neighbours that are both not the needle are
/// both kept, and are neighbours in the squeezed text as well.
pub proof fn lemma_other_pair_stays_adjacent(text: Seq<char>, needle: char, i: int)
    requires
        0 <= i,
        i + 1 < text.len(),
        text[i] != needle,
        text[i + 1] != needle,
    ensures
        exists|k: int|
            {
                &&& #[trigger] lands_at(text, needle, i, k)
                &&& lands_at(text, needle, i + 1, k + 1)
                &&& squeezed(text, needle)[k] == text[i]
                &&& squeezed(text, needle)[k + 1] == text[i + 1]
            },
    decreases text.len(),
{
    let rest = text.drop_last();
    let before = kept_positions(rest, needle);
    lemma_kept_positions(text, needle);
    lemma_kept_positions(rest, needle);
    if i + 1 == text.len() - 1 {
        let k = before.len() - 1;
        assert(lands_at(text, needle, i, k) && lands_at(text, needle, i + 1, k + 1));
    } else {
        lemma_other_pair_stays_adjacent(rest, needle, i);
        let k = choose|k: int|
            #[trigger] lands_at(rest, needle, i, k) && lands_at(rest, needle, i + 1, k + 1);
        assert(lands_at(text, needle, i, k) && lands_at(text, needle, i + 1, k + 1));
    }
}

} // verus!
