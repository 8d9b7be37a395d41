//! The greedy fitting model: how many leading characters of a text fit,
//! whole, into a byte budget.
//!
//! All capacity decisions of the buffer are stated over these functions.

use vstd::prelude::*;
use vstd::utf8::{encode_scalar, encode_utf8};

verus! {

/// Number of bytes in the UTF-8 encoding of one character.
pub open spec fn char_bytes(c: char) -> int {
    encode_scalar(c as u32).len() as int
}

/// Number of bytes in the UTF-8 encoding of a character sequence.
pub open spec fn text_bytes(s: Seq<char>) -> int {
    encode_utf8(s).len() as int
}

/// How many leading characters of `s` fit, whole, in `budget` bytes:
/// characters are taken greedily from the front until the next one would
/// overrun the budget.
pub open spec fn fit_count(s: Seq<char>, budget: int) -> nat
    decreases s.len(),
{
    if s.len() == 0 || char_bytes(s[0]) > budget {
        0
    } else {
        1 + fit_count(s.drop_first(), budget - char_bytes(s[0]))
    }
}

/// The longest whole-character prefix of `s` whose encoding fits in
/// `budget` bytes.
pub open spec fn fit_prefix(s: Seq<char>, budget: int) -> Seq<char> {
    s.take(fit_count(s, budget) as int)
}

/// A character encodes to one, two, three or four bytes.
pub proof fn lemma_char_bytes_bounds(c: char)
    ensures
        1 <= char_bytes(c) <= 4,
{
}

/// The encoding of a concatenation is the concatenation of the encodings.
pub proof fn lemma_encode_concat(a: Seq<char>, b: Seq<char>)
    ensures
        encode_utf8(a + b) == encode_utf8(a) + encode_utf8(b),
    decreases a.len(),
{
    if a.len() == 0 {
        assert(a + b =~= b);
        assert(encode_utf8(a) + encode_utf8(b) =~= encode_utf8(b));
    } else {
        assert((a + b).drop_first() =~= a.drop_first() + b);
        lemma_encode_concat(a.drop_first(), b);
        assert(encode_utf8(a + b) =~= encode_utf8(a) + encode_utf8(b));
    }
}

/// Splitting a text splits its encoded byte length.
pub proof fn lemma_text_bytes_split(s: Seq<char>, k: int)
    requires
        0 <= k <= s.len(),
    ensures
        text_bytes(s) == text_bytes(s.take(k)) + text_bytes(s.skip(k)),
        encode_utf8(s) == encode_utf8(s.take(k)) + encode_utf8(s.skip(k)),
{
    assert(s =~= s.take(k) + s.skip(k));
    lemma_encode_concat(s.take(k), s.skip(k));
}

/// A text never encodes to fewer bytes than it has characters.
pub proof fn lemma_text_bytes_ge_len(s: Seq<char>)
    ensures
        text_bytes(s) >= s.len(),
    decreases s.len(),
{
    if s.len() > 0 {
        lemma_char_bytes_bounds(s[0]);
        lemma_text_bytes_ge_len(s.drop_first());
    }
}

/// The fitted character count never exceeds the text's length.
pub proof fn lemma_fit_count_le_len(s: Seq<char>, budget: int)
    ensures
        fit_count(s, budget) <= s.len(),
    decreases s.len(),
{
    if s.len() > 0 && char_bytes(s[0]) <= budget {
        lemma_fit_count_le_len(s.drop_first(), budget - char_bytes(s[0]));
    }
}

/// What fits stays within the budget: the fitted prefix encodes to at most
/// `budget` bytes (and to no more bytes than the whole text).
pub proof fn lemma_fit_prefix_bytes(s: Seq<char>, budget: int)
    ensures
        budget >= 0 ==> text_bytes(fit_prefix(s, budget)) <= budget,
        budget < 0 ==> fit_count(s, budget) == 0,
    decreases s.len(),
{
    lemma_fit_count_le_len(s, budget);
    if s.len() == 0 || char_bytes(s[0]) > budget {
        assert(fit_prefix(s, budget) =~= Seq::<char>::empty());
    } else {
        let w0 = char_bytes(s[0]);
        lemma_char_bytes_bounds(s[0]);
        lemma_fit_prefix_bytes(s.drop_first(), budget - w0);
        lemma_fit_count_le_len(s.drop_first(), budget - w0);
        assert(fit_prefix(s, budget).drop_first() =~= fit_prefix(s.drop_first(), budget - w0));
        assert(encode_utf8(fit_prefix(s, budget)) == encode_scalar(s[0] as u32) + encode_utf8(
            fit_prefix(s, budget).drop_first(),
        ));
    }
}

/// A text whose whole encoding fits is fitted completely.
///
/// With `FlatString::from_str`'s contract this is the round-trip law: a
/// source whose byte length is within capacity is stored unchanged.
pub proof fn lemma_fit_prefix_complete(s: Seq<char>, budget: int)
    requires
        text_bytes(s) <= budget,
    ensures
        fit_count(s, budget) == s.len(),
        fit_prefix(s, budget) == s,
    decreases s.len(),
{
    if s.len() > 0 {
        lemma_char_bytes_bounds(s[0]);
        lemma_text_bytes_ge_len(s.drop_first());
        assert(text_bytes(s) == char_bytes(s[0]) + text_bytes(s.drop_first()));
        lemma_fit_prefix_complete(s.drop_first(), budget - char_bytes(s[0]));
    }
    assert(fit_prefix(s, budget) =~= s);
}

/// Fitting drops whole characters only: what is kept is a prefix of the
/// text, character by character, and what is dropped is the remaining
/// characters, also whole.
pub proof fn lemma_fit_prefix_whole_chars(s: Seq<char>, budget: int)
    ensures
        fit_prefix(s, budget).is_prefix_of(s),
        fit_prefix(s, budget) + s.skip(fit_count(s, budget) as int) == s,
{
    lemma_fit_count_le_len(s, budget);
    assert(fit_prefix(s, budget) + s.skip(fit_count(s, budget) as int) =~= s);
}

/// Step of the greedy fit: when the first character fits, it is taken.
pub proof fn lemma_fit_count_step(s: Seq<char>, budget: int)
    requires
        s.len() > 0,
        char_bytes(s[0]) <= budget,
    ensures
        fit_count(s, budget) == 1 + fit_count(s.drop_first(), budget - char_bytes(s[0])),
{
}

/// Byte length of one more character of a prefix.
pub proof fn lemma_text_bytes_take_succ(s: Seq<char>, k: int)
    requires
        0 <= k < s.len(),
    ensures
        text_bytes(s.take(k + 1)) == text_bytes(s.take(k)) + char_bytes(s[k]),
{
    assert(s.take(k + 1) =~= s.take(k) + seq![s[k]]);
    lemma_encode_concat(s.take(k), seq![s[k]]);
    assert(encode_utf8(seq![s[k]]) =~= encode_scalar(s[k] as u32) + encode_utf8(
        seq![s[k]].drop_first(),
    ));
    assert(seq![s[k]].drop_first() =~= Seq::<char>::empty());
}

} // verus!
