//! The mathematical model: what squeezing a text means, stated over `Seq<char>`.

use vstd::prelude::*;

verus! {

/// Position `i` of `text` holds the needle, directly after another needle.
/// These are the positions that squeezing takes out.
pub open spec fn is_repeat(text: Seq<char>, needle: char, i: int) -> bool {
    0 < i < text.len() && text[i] == needle && text[i - 1] == needle
}

/// Somewhere in `text` the needle stands beside itself.
pub open spec fn has_repeat(text: Seq<char>, needle: char) -> bool {
    exists|i: int| is_repeat(text, needle, i)
}

/// The text with every repeat of the needle taken out: each maximal run of the
/// needle is left with its first character, everything else stays as it is.
pub open spec fn squeezed(text: Seq<char>, needle: char) -> Seq<char>
    decreases text.len(),
{
    if text.len() == 0 {
        Seq::empty()
    } else if is_repeat(text, needle, text.len() - 1) {
        squeezed(text.drop_last(), needle)
    } else {
        squeezed(text.drop_last(), needle).push(text.last())
    }
}

/// The positions of `text` that squeezing keeps, in ascending order.
pub open spec fn kept_positions(text: Seq<char>, needle: char) -> Seq<int>
    decreases text.len(),
{
    if text.len() == 0 {
        Seq::empty()
    } else if is_repeat(text, needle, text.len() - 1) {
        kept_positions(text.drop_last(), needle)
    } else {
        kept_positions(text.drop_last(), needle).push(text.len() - 1)
    }
}

/// Position `i` of `text` is kept, and stands at place `k` of the squeezed text.
pub open spec fn lands_at(text: Seq<char>, needle: char, i: int, k: int) -> bool {
    0 <= k < kept_positions(text, needle).len() && kept_positions(text, needle)[k] == i
}

/// `positions` shows how to get `part` out of `whole` by deletions alone: it
/// names, in ascending order, the place in `whole` of each character of `part`.
pub open spec fn embeds(positions: Seq<int>, part: Seq<char>, whole: Seq<char>) -> bool {
    &&& positions.len() == part.len()
    &&& forall|k: int|
        0 <= k < positions.len() ==> 0 <= #[trigger] positions[k] < whole.len()
            && whole[positions[k]] == part[k]
    &&& forall|j: int, k: int|
        0 <= j < k < positions.len() ==> #[trigger] positions[j] < #[trigger] positions[k]
}

/// `part` can be had from `whole` by deleting characters, with no character
/// added, changed or moved.
pub open spec fn is_subsequence(part: Seq<char>, whole: Seq<char>) -> bool {
    exists|positions: Seq<int>| embeds(positions, part, whole)
}

/// The text with every occurrence of `needle` deleted: what stands around the
/// needles, in its order.
pub open spec fn without(text: Seq<char>, needle: char) -> Seq<char> {
    text.filter(|c: char| c != needle)
}

/// The lengths of the maximal runs of `c` in `text`, from left to right.
pub open spec fn run_lengths(text: Seq<char>, c: char) -> Seq<nat>
    decreases text.len(),
{
    if text.len() == 0 {
        Seq::empty()
    } else {
        let before = run_lengths(text.drop_last(), c);
        if text.last() != c {
            before
        } else if is_repeat(text, c, text.len() - 1) {
            before.update(before.len() - 1, before.last() + 1)
        } else {
            before.push(1)
        }
    }
}

} // verus!
