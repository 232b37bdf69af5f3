//! Squeezing a `String`, in place or into a new one.

use vstd::prelude::*;
use crate::laws::{
    lemma_other_runs_unchanged, lemma_squeeze_is_subsequence, lemma_squeeze_length,
    lemma_squeezed_last, lemma_squeezed_push,
};
use crate::model::{has_repeat, is_subsequence, run_lengths, squeezed};

verus! {

/// `String::push` of std: the text afterwards is the text before with the one
/// character `ch` added at its end. This is taken from std's documentation and
/// not proved here.
pub assume_specification[ String::push ](string: &mut String, ch: char)
    ensures
        final(string)@ == old(string)@.push(ch),
;

/// Squeezes `string` in place: of every run of consecutive `needle`s only the
/// first stays. Other characters are not touched, also where they repeat, and
/// characters are compared exactly, so that a letter in the other case is
/// another character.
///
/// The text is read once from left to right. `prev` holds the character kept
/// last; a character is dropped where it is the needle and `prev` is the needle
/// too.
pub fn squeeze(string: &mut String, needle: char)
    ensures
        final(string)@ == squeezed(old(string)@, needle),
        final(string)@.len() <= old(string)@.len(),
        final(string)@.len() == old(string)@.len() <==> !has_repeat(old(string)@, needle),
        is_subsequence(final(string)@, old(string)@),
        forall|other: char|
            other != needle ==> #[trigger] run_lengths(final(string)@, other) == run_lengths(
                old(string)@,
                other,
            ),
{
    let mut kept = String::new();
    let mut prev: Option<char> = None;
    let text = string.as_str();
    for curr in chars: text.chars()
        invariant
            chars.seq() == text@,
            kept@ == squeezed(text@.take(chars.index()), needle),
            prev == (if kept@.len() == 0 {
                None
            } else {
                Some(kept@.last())
            }),
    {
        proof {
            let seen = text@.take(chars.index());
            lemma_squeezed_last(seen, needle);
            lemma_squeezed_push(seen, needle, curr);
            assert(text@.take(chars.index() + 1) == seen.push(curr));
        }
        if curr != needle || Some(curr) != prev {
            prev = Some(curr);
            kept.push(curr);
        }
    }
    proof {
        assert(text@.take(text@.len() as int) == text@);
        lemma_squeeze_length(text@, needle);
        lemma_squeeze_is_subsequence(text@, needle);
        assert forall|other: char| other != needle implies #[trigger] run_lengths(kept@, other)
            == run_lengths(text@, other) by {
            lemma_other_runs_unchanged(text@, needle, other);
        }
    }
    *string = kept;
}

/// Squeezing as methods of a text, for those who prefer `text.squeeze(c)` to
/// the free function.
pub trait SqueezeExt: View<V = Seq<char>> {
    /// Squeezes the text in place, as [`squeeze`] does.
    fn squeeze_in_place(&mut self, needle: char)
        ensures
            final(self)@ == squeezed(old(self)@, needle),
    ;

    /// Returns the squeezed text as a new `String` and leaves this one as it is.
    fn squeeze(&self, needle: char) -> (result: String)
        ensures
            result@ == squeezed(self@, needle),
    ;
}

impl SqueezeExt for String {
    fn squeeze_in_place(&mut self, needle: char) {
        squeeze(self, needle);
    }

    fn squeeze(&self, needle: char) -> (result: String) {
        let mut this = self.clone();
        squeeze(&mut this, needle);
        this
    }
}

} // verus!
