//! Verified helpers over raw UTF-8 bytes: reading a character's width from
//! its leading byte, greedy fitting, character counting, block copies, and
//! encoding a single character.

use vstd::prelude::*;
use vstd::utf8::{
    encode_scalar, encode_utf8, is_leading_byte_width_1, is_leading_byte_width_2,
    is_leading_byte_width_3, is_leading_byte_width_4, char_is_scalar,
    valid_leading_and_continuation_bytes_first_codepoint, length_of_first_codepoint,
    encode_utf8_first_scalar, length_of_first_scalar, valid_first_scalar,
};
use crate::fit::{
    char_bytes, text_bytes, fit_count, fit_prefix, lemma_fit_count_step,
    lemma_text_bytes_take_succ, lemma_text_bytes_split, lemma_text_bytes_ge_len,
    lemma_char_bytes_bounds,
};

verus! {

/// Width in bytes of the character whose encoding starts with leading
/// byte `b`.
pub fn scalar_width(b: u8) -> (w: usize)
    requires
        is_leading_byte_width_1(b) || is_leading_byte_width_2(b) || is_leading_byte_width_3(b)
            || is_leading_byte_width_4(b),
    ensures
        1 <= w <= 4,
        forall|bytes: Seq<u8>|
            bytes.len() > 0 && bytes[0] == b
                && #[trigger] valid_leading_and_continuation_bytes_first_codepoint(bytes)
                ==> length_of_first_codepoint(bytes) == w,
{
    if b < 0x80 {
        1
    } else if b < 0xe0 {
        2
    } else if b < 0xf0 {
        3
    } else {
        4
    }
}

/// The encoding of a non-empty text starts with the leading byte of its
/// first character, and that leading byte announces the character's width.
proof fn lemma_first_char_leading_byte(chars: Seq<char>)
    requires
        chars.len() > 0,
    ensures
        encode_utf8(chars).len() > 0,
        encode_utf8(chars)[0] == encode_scalar(chars[0] as u32)[0],
        valid_first_scalar(encode_utf8(chars)),
        length_of_first_scalar(encode_utf8(chars)) == char_bytes(chars[0]),
{
    char_is_scalar(chars[0]);
    encode_utf8_first_scalar(chars);
    assert(encode_utf8(chars) == encode_scalar(chars[0] as u32) + encode_utf8(chars.drop_first()));
    lemma_char_bytes_bounds(chars[0]);
}

/// Greedy fit over encoded bytes: the byte length of the longest
/// whole-character prefix of `chars` that fits in `budget` bytes, computed
/// from the encoding `s` alone.
pub fn fit_scan(s: &[u8], budget: usize, Ghost(chars): Ghost<Seq<char>>) -> (n: usize)
    requires
        s@ == encode_utf8(chars),
    ensures
        n == text_bytes(fit_prefix(chars, budget as int)),
        n <= budget,
        n <= s@.len(),
        s@.subrange(0, n as int) == encode_utf8(fit_prefix(chars, budget as int)),
{
    let mut n: usize = 0;
    let ghost mut m: int = 0;
    proof {
        assert(chars.skip(0) =~= chars);
        assert(chars.take(0) =~= Seq::<char>::empty());
    }
    loop
        invariant
            s@ == encode_utf8(chars),
            0 <= m <= chars.len(),
            n == text_bytes(chars.take(m)),
            n <= budget,
            n <= s@.len(),
            fit_count(chars, budget as int) == m + fit_count(
                chars.skip(m),
                budget as int - n as int,
            ),
        ensures
            n == text_bytes(fit_prefix(chars, budget as int)),
            n <= budget,
            n <= s@.len(),
            s@.subrange(0, n as int) == encode_utf8(fit_prefix(chars, budget as int)),
        decreases chars.len() - m,
    {
        proof {
            lemma_text_bytes_split(chars, m);
        }
        if n >= s.len() {
            proof {
                lemma_text_bytes_ge_len(chars.skip(m));
                assert(chars.skip(m) =~= Seq::<char>::empty());
                assert(fit_count(chars, budget as int) == m);
                assert(fit_prefix(chars, budget as int) =~= chars.take(m));
                assert(s@.subrange(0, n as int) =~= encode_utf8(chars.take(m)));
            }
            break;
        }
        let ghost tail = chars.skip(m);
        proof {
            lemma_text_bytes_ge_len(tail);
            assert(tail.len() > 0);
            lemma_first_char_leading_byte(tail);
            assert(s@.subrange(n as int, s@.len() as int) =~= encode_utf8(tail));
            assert(s@[n as int] == encode_utf8(tail)[0]);
        }
        let b = s[n];
        let w = scalar_width(b);
        proof {
            assert(length_of_first_scalar(encode_utf8(tail)) == w);
            assert(char_bytes(tail[0]) == w);
        }
        if w > budget - n {
            proof {
                assert(char_bytes(tail[0]) > budget - n);
                assert(fit_count(tail, budget as int - n as int) == 0);
                assert(fit_prefix(chars, budget as int) =~= chars.take(m));
                assert(s@.subrange(0, n as int) =~= encode_utf8(chars.take(m)));
            }
            break;
        }
        proof {
            lemma_fit_count_step(tail, budget as int - n as int);
            assert(tail.drop_first() =~= chars.skip(m + 1));
            assert(chars.take(m + 1)[m] == chars[m]);
            assert(tail[0] == chars[m]);
            lemma_text_bytes_take_succ(chars, m);
        }
        n = n + w;
        proof {
            m = m + 1;
        }
    }
    n
}

/// Number of characters encoded in `s`.
pub fn count_scan(s: &[u8], Ghost(chars): Ghost<Seq<char>>) -> (k: usize)
    requires
        s@ == encode_utf8(chars),
    ensures
        k == chars.len(),
        k <= s@.len(),
{
    let mut n: usize = 0;
    let mut k: usize = 0;
    proof {
        assert(chars.take(0) =~= Seq::<char>::empty());
    }
    loop
        invariant
            s@ == encode_utf8(chars),
            0 <= k <= chars.len(),
            n == text_bytes(chars.take(k as int)),
            n <= s@.len(),
            k <= n,
        ensures
            k == chars.len(),
            k <= s@.len(),
        decreases chars.len() - k,
    {
        proof {
            lemma_text_bytes_split(chars, k as int);
        }
        if n >= s.len() {
            proof {
                lemma_text_bytes_ge_len(chars.skip(k as int));
                assert(chars.skip(k as int) =~= Seq::<char>::empty());
            }
            break;
        }
        let ghost tail = chars.skip(k as int);
        proof {
            lemma_text_bytes_ge_len(tail);
            assert(tail.len() > 0);
            lemma_first_char_leading_byte(tail);
            assert(s@.subrange(n as int, s@.len() as int) =~= encode_utf8(tail));
            assert(s@[n as int] == encode_utf8(tail)[0]);
        }
        let b = s[n];
        let w = scalar_width(b);
        proof {
            assert(char_bytes(tail[0]) == w);
            assert(tail[0] == chars[k as int]);
            lemma_text_bytes_take_succ(chars, k as int);
            lemma_text_bytes_split(chars, k + 1);
            lemma_text_bytes_ge_len(chars.skip(k + 1));
        }
        n = n + w;
        k = k + 1;
    }
    k
}

/// Copies `n` leading bytes of `src` into `dst` starting at `at`.
pub fn copy_into<const SIZE: usize>(dst: &mut [u8; SIZE], at: usize, src: &[u8], n: usize)
    requires
        at + n <= SIZE,
        n <= src@.len(),
    ensures
        final(dst)@ == old(dst)@.take(at as int) + src@.take(n as int) + old(dst)@.skip(
            at as int + n,
        ),
{
    let mut i: usize = 0;
    while i < n
        invariant
            at + n <= SIZE,
            n <= src@.len(),
            0 <= i <= n,
            dst@.len() == SIZE,
            forall|j: int| 0 <= j < at ==> dst@[j] == old(dst)@[j],
            forall|j: int| at <= j < at + i ==> dst@[j] == src@[j - at],
            forall|j: int| at + i <= j < SIZE ==> dst@[j] == old(dst)@[j],
        decreases n - i,
    {
        dst[at + i] = src[i];
        i = i + 1;
    }
    proof {
        assert(dst@ =~= old(dst)@.take(at as int) + src@.take(n as int) + old(dst)@.skip(
            at as int + n,
        ));
    }
}

/// The UTF-8 encoding of one character, as [`encode_scalar`] defines it.
pub fn encode_char(c: char) -> (v: Vec<u8>)
    ensures
        v@ == encode_scalar(c as u32),
        v@ == encode_utf8(seq![c]),
        1 <= v@.len() <= 4,
{
    proof {
        char_is_scalar(c);
    }
    let u = c as u32;
    let mut v: Vec<u8> = Vec::new();
    if u <= 0x7f {
        v.push((u & 0x7f) as u8);
    } else if u <= 0x7ff {
        v.push(0xc0 | ((u >> 6) & 0x1f) as u8);
        v.push(0x80 | (u & 0x3f) as u8);
    } else if u <= 0xffff {
        v.push(0xe0 | ((u >> 12) & 0x0f) as u8);
        v.push(0x80 | ((u >> 6) & 0x3f) as u8);
        v.push(0x80 | (u & 0x3f) as u8);
    } else {
        v.push(0xf0 | ((u >> 18) & 0x7) as u8);
        v.push(0x80 | ((u >> 12) & 0x3f) as u8);
        v.push(0x80 | ((u >> 6) & 0x3f) as u8);
        v.push(0x80 | (u & 0x3f) as u8);
    }
    proof {
        assert(v@ =~= encode_scalar(c as u32));
        assert(seq![c].drop_first() =~= Seq::<char>::empty());
        assert(encode_utf8(seq![c]) =~= encode_scalar(c as u32) + encode_utf8(
            seq![c].drop_first(),
        ));
        assert(v@ =~= encode_utf8(seq![c]));
        lemma_char_bytes_bounds(c);
    }
    v
}

} // verus!
