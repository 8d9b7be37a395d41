//! The fixed-capacity UTF-8 string buffer.

use vstd::prelude::*;
use vstd::utf8::{
    decode_utf8, encode_utf8, valid_utf8, encode_utf8_decode_utf8, decode_utf8_encode_utf8,
    encode_utf8_valid_utf8, is_char_boundary, valid_utf8_split, decode_utf8_split,
    is_char_boundary_iff_not_is_continuation_byte, is_char_boundary_start_end_of_seq,
    is_continuation_byte, valid_first_scalar, length_of_first_scalar, decode_first_scalar,
    pop_first_scalar, valid_leading_and_continuation_bytes_first_codepoint, valid_utf8_concat,
    is_leading_byte_width_1, is_leading_byte_width_2, is_leading_byte_width_3,
    is_leading_byte_width_4,
};
use vstd::string::StrSliceExecFns;
use vstd::slice::slice_subrange;
use vstd::string::StringSliceAdditionalSpecFns;
use crate::fit::{
    char_bytes, text_bytes, fit_count, fit_prefix, lemma_encode_concat, lemma_fit_prefix_complete,
    lemma_text_bytes_ge_len,
};
use crate::scan::{copy_into, count_scan, fit_scan, encode_char, scalar_width};

verus! {

/// The bytes held after inserting the byte-encoded text `t` at byte
/// position `i` of `content`, under a capacity of `cap` bytes.
///
/// When the whole of `t` can stand at `i` with at least one byte of room
/// behind it, the old suffix moves right by `t`'s length and keeps its
/// longest whole-character prefix that still fits.  Otherwise nothing
/// moves: the fitting prefix of `t` overwrites the content in place, and
/// the old content behind the overwritten region survives only when the
/// overwrite ends on one of its character boundaries — a character it ends
/// inside of is dropped whole, never split.
pub open spec fn insert_bytes(content: Seq<u8>, i: int, t: Seq<u8>, cap: int) -> Seq<u8> {
    if i + t.len() < cap {
        content.take(i) + t + encode_utf8(
            fit_prefix(decode_utf8(content.skip(i)), cap - i - t.len()),
        )
    } else {
        let w = text_bytes(fit_prefix(decode_utf8(t), cap - i));
        if i + w < content.len() && is_char_boundary(content, i + w) {
            content.take(i) + t.take(w) + content.skip(i + w)
        } else {
            content.take(i) + t.take(w)
        }
    }
}

/// The character-level reading of [`insert_bytes`]: the result is always
/// valid UTF-8, and its text is the old text up to the insertion point,
/// then the fitting prefix of the inserted text, then whatever whole
/// characters of the old suffix survive.  Nothing is ever split.
pub proof fn lemma_insert_text(content: Seq<u8>, i: int, t: Seq<u8>, cap: int)
    requires
        valid_utf8(content),
        valid_utf8(t),
        is_char_boundary(content, i),
        0 <= i <= content.len(),
    ensures
        valid_utf8(insert_bytes(content, i, t, cap)),
        i + t.len() < cap ==> decode_utf8(insert_bytes(content, i, t, cap)) == (decode_utf8(
            content.take(i),
        ) + decode_utf8(t)) + fit_prefix(decode_utf8(content.skip(i)), cap - i - t.len()),
        !(i + t.len() < cap) ==> ({
            let w = text_bytes(fit_prefix(decode_utf8(t), cap - i));
            let pre = decode_utf8(content.take(i));
            let fitted = fit_prefix(decode_utf8(t), cap - i);
            if i + w < content.len() && is_char_boundary(content, i + w) {
                decode_utf8(insert_bytes(content, i, t, cap)) == (pre + fitted) + decode_utf8(
                    content.skip(i + w),
                )
            } else {
                decode_utf8(insert_bytes(content, i, t, cap)) == pre + fitted
            }
        }),
{
    valid_utf8_split(content, i);
    decode_utf8_encode_utf8(content.take(i));
    decode_utf8_encode_utf8(t);
    let pre = decode_utf8(content.take(i));
    let dt = decode_utf8(t);
    if i + t.len() < cap {
        let kept = fit_prefix(decode_utf8(content.skip(i)), cap - i - t.len());
        lemma_encode_concat(pre, dt);
        lemma_encode_concat(pre + dt, kept);
        assert(insert_bytes(content, i, t, cap) =~= encode_utf8((pre + dt) + kept));
        encode_utf8_valid_utf8((pre + dt) + kept);
        encode_utf8_decode_utf8((pre + dt) + kept);
    } else {
        let k = fit_count(dt, cap - i) as int;
        let fitted = fit_prefix(dt, cap - i);
        let w = text_bytes(fitted);
        crate::fit::lemma_fit_count_le_len(dt, cap - i);
        crate::fit::lemma_text_bytes_split(dt, k);
        assert(t.take(w) =~= encode_utf8(fitted));
        if i + w < content.len() && is_char_boundary(content, i + w) {
            valid_utf8_split(content, i + w);
            decode_utf8_encode_utf8(content.skip(i + w));
            let tail = decode_utf8(content.skip(i + w));
            lemma_encode_concat(pre, fitted);
            lemma_encode_concat(pre + fitted, tail);
            assert(insert_bytes(content, i, t, cap) =~= encode_utf8((pre + fitted) + tail));
            encode_utf8_valid_utf8((pre + fitted) + tail);
            encode_utf8_decode_utf8((pre + fitted) + tail);
        } else {
            lemma_encode_concat(pre, fitted);
            assert(insert_bytes(content, i, t, cap) =~= encode_utf8(pre + fitted));
            encode_utf8_valid_utf8(pre + fitted);
            encode_utf8_decode_utf8(pre + fitted);
        }
    }
}

/// A UTF-8 string of at most `SIZE` bytes, stored inline.
///
/// `data[0..len]` always holds a valid UTF-8 encoding and `chars` its
/// character count; bytes past `len` are stale and never read.
#[derive(Clone, Copy, Debug, Eq)]
pub struct FlatString<const SIZE: usize> {
    data: [u8; SIZE],
    len: u8,
    chars: u8,
}

impl<const SIZE: usize> PartialEq for FlatString<SIZE> {
    /// Two buffers are equal exactly when their contents are
    /// byte-identical; stale bytes past the length play no part.
    fn eq(&self, other: &Self) -> (r: bool) {
        if self.len != other.len {
            return false;
        }
        let n = if (self.len as usize) < SIZE {
            self.len as usize
        } else {
            SIZE
        };
        let mut i: usize = 0;
        while i < n
            invariant
                n <= SIZE,
                0 <= i <= n,
                self.len == other.len,
                n == if self.len as int <= SIZE as int {
                    self.len as int
                } else {
                    SIZE as int
                },
                forall|q: int| 0 <= q < i ==> self.data@[q] == other.data@[q],
            decreases n - i,
        {
            if self.data[i] != other.data[i] {
                proof {
                    assert(self.clamped()[i as int] != other.clamped()[i as int]);
                }
                return false;
            }
            i = i + 1;
        }
        proof {
            assert(self.clamped() =~= other.clamped());
        }
        true
    }
}

impl<const SIZE: usize> vstd::std_specs::cmp::PartialEqSpecImpl for FlatString<SIZE> {
    open spec fn obeys_eq_spec() -> bool {
        true
    }

    closed spec fn eq_spec(&self, other: &Self) -> bool {
        self.len == other.len && self.clamped() == other.clamped()
    }
}

/// Lexicographic order on byte sequences.
pub open spec fn lex_cmp(a: Seq<u8>, b: Seq<u8>) -> core::cmp::Ordering
    decreases a.len(),
{
    if a.len() == 0 && b.len() == 0 {
        core::cmp::Ordering::Equal
    } else if a.len() == 0 {
        core::cmp::Ordering::Less
    } else if b.len() == 0 {
        core::cmp::Ordering::Greater
    } else if a[0] < b[0] {
        core::cmp::Ordering::Less
    } else if a[0] > b[0] {
        core::cmp::Ordering::Greater
    } else {
        lex_cmp(a.drop_first(), b.drop_first())
    }
}

/// Lexicographic comparison finds two byte sequences equal exactly when
/// they are the same sequence, so the order agrees with equality.
pub proof fn lemma_lex_cmp_equal_iff(a: Seq<u8>, b: Seq<u8>)
    ensures
        (lex_cmp(a, b) == core::cmp::Ordering::Equal) <==> a == b,
    decreases a.len(),
{
    if a.len() == 0 && b.len() == 0 {
        assert(a =~= b);
    } else if a.len() == 0 || b.len() == 0 {
    } else if a[0] == b[0] {
        lemma_lex_cmp_equal_iff(a.drop_first(), b.drop_first());
        if lex_cmp(a, b) == core::cmp::Ordering::Equal {
            assert(a =~= seq![a[0]] + a.drop_first());
            assert(b =~= seq![b[0]] + b.drop_first());
        }
        if a == b {
            assert(a.drop_first() =~= b.drop_first());
        }
    } else {
        if a == b {
            assert(a[0] == b[0]);
        }
    }
}

impl<const SIZE: usize> PartialOrd for FlatString<SIZE> {
    /// Buffers order lexicographically over their contents; stale bytes
    /// past the length play no part.
    fn partial_cmp(&self, other: &Self) -> (r: Option<core::cmp::Ordering>) {
        let na = if (self.len as usize) < SIZE {
            self.len as usize
        } else {
            SIZE
        };
        let nb = if (other.len as usize) < SIZE {
            other.len as usize
        } else {
            SIZE
        };
        let n = if na < nb {
            na
        } else {
            nb
        };
        let ghost ca = self.clamped();
        let ghost cb = other.clamped();
        proof {
            assert(ca.len() == na);
            assert(cb.len() == nb);
            assert(ca.skip(0) =~= ca);
            assert(cb.skip(0) =~= cb);
        }
        let mut i: usize = 0;
        while i < n
            invariant
                0 <= i <= n,
                n == if na < nb {
                    na as int
                } else {
                    nb as int
                },
                na <= SIZE,
                nb <= SIZE,
                ca == self.clamped(),
                cb == other.clamped(),
                ca.len() == na,
                cb.len() == nb,
                lex_cmp(ca, cb) == lex_cmp(ca.skip(i as int), cb.skip(i as int)),
                forall|q: int| 0 <= q < i ==> ca[q] == cb[q],
            decreases n - i,
        {
            let a = self.data[i];
            let b = other.data[i];
            proof {
                assert(ca.skip(i as int)[0] == a);
                assert(cb.skip(i as int)[0] == b);
            }
            if a < b {
                return Some(core::cmp::Ordering::Less);
            }
            if a > b {
                return Some(core::cmp::Ordering::Greater);
            }
            proof {
                assert(ca.skip(i as int).drop_first() =~= ca.skip(i + 1));
                assert(cb.skip(i as int).drop_first() =~= cb.skip(i + 1));
            }
            i = i + 1;
        }
        proof {
            if na < nb {
                assert(ca.skip(i as int).len() == 0);
                assert(cb.skip(i as int).len() > 0);
            } else if na > nb {
                assert(cb.skip(i as int).len() == 0);
                assert(ca.skip(i as int).len() > 0);
            } else {
                assert(ca.skip(i as int).len() == 0);
                assert(cb.skip(i as int).len() == 0);
            }
        }
        if na < nb {
            Some(core::cmp::Ordering::Less)
        } else if na > nb {
            Some(core::cmp::Ordering::Greater)
        } else {
            Some(core::cmp::Ordering::Equal)
        }
    }
}

impl<const SIZE: usize> vstd::std_specs::cmp::PartialOrdSpecImpl for FlatString<SIZE> {
    open spec fn obeys_partial_cmp_spec() -> bool {
        true
    }

    closed spec fn partial_cmp_spec(&self, other: &Self) -> Option<core::cmp::Ordering> {
        Some(lex_cmp(self.clamped(), other.clamped()))
    }
}

impl<const SIZE: usize> FlatString<SIZE> {
    /// The bytes currently holding the content.
    pub closed spec fn bytes(&self) -> Seq<u8> {
        self.data@.take(self.len as int)
    }

    /// The content bytes with the length clamped to the capacity; on a
    /// well-formed buffer this is [`FlatString::bytes`] itself.  Equality
    /// compares this, so that it is total on any field values.
    closed spec fn clamped(&self) -> Seq<u8> {
        self.data@.take(
            if self.len as int <= SIZE as int {
                self.len as int
            } else {
                SIZE as int
            },
        )
    }

    /// Equality is content equality: on well-formed buffers `==` means
    /// byte-identical content, equivalently identical text.
    pub proof fn lemma_eq_is_content(&self, other: &Self)
        requires
            self.wf(),
            other.wf(),
        ensures
            vstd::std_specs::cmp::PartialEqSpec::eq_spec(self, other) <==> self.bytes()
                == other.bytes(),
            vstd::std_specs::cmp::PartialEqSpec::eq_spec(self, other) <==> self.text()
                == other.text(),
    {
        assert(self.clamped() == self.bytes());
        assert(other.clamped() == other.bytes());
        if self.bytes() == other.bytes() {
            assert(self.len == other.len) by {
                assert(self.bytes().len() == self.len as int);
                assert(other.bytes().len() == other.len as int);
            }
        }
        self.lemma_wf();
        other.lemma_wf();
        if self.text() == other.text() {
            assert(self.bytes() == other.bytes());
        }
    }

    /// Ordering is lexicographic over the content bytes: on well-formed
    /// buffers `partial_cmp` returns their contents' lexicographic order,
    /// and finds them equal exactly when `==` does.
    pub proof fn lemma_ord_is_content(&self, other: &Self)
        requires
            self.wf(),
            other.wf(),
        ensures
            vstd::std_specs::cmp::PartialOrdSpec::partial_cmp_spec(self, other) == Some(
                lex_cmp(self.bytes(), other.bytes()),
            ),
            (vstd::std_specs::cmp::PartialOrdSpec::partial_cmp_spec(self, other) == Some(
                core::cmp::Ordering::Equal,
            )) <==> vstd::std_specs::cmp::PartialEqSpec::eq_spec(self, other),
    {
        assert(self.clamped() == self.bytes());
        assert(other.clamped() == other.bytes());
        lemma_lex_cmp_equal_iff(self.bytes(), other.bytes());
        self.lemma_eq_is_content(other);
    }

    /// The content as a character sequence.
    pub open spec fn text(&self) -> Seq<char> {
        decode_utf8(self.bytes())
    }

    /// Well-formed: capacity in range, content within capacity and valid
    /// UTF-8, character counter accurate.
    pub closed spec fn wf(&self) -> bool {
        &&& 1 <= SIZE <= 255
        &&& self.len as int <= SIZE as int
        &&& valid_utf8(self.bytes())
        &&& self.chars as nat == self.text().len()
    }

    /// A well-formed buffer's content is valid UTF-8 — its bytes are the
    /// encoding of its text — and the counters stay within capacity.
    pub proof fn lemma_wf(&self)
        requires
            self.wf(),
        ensures
            valid_utf8(self.bytes()),
            self.bytes() == encode_utf8(self.text()),
            self.bytes().len() <= SIZE,
            SIZE <= 255,
            self.text().len() <= self.bytes().len(),
            is_char_boundary(self.bytes(), 0),
            is_char_boundary(self.bytes(), self.bytes().len() as int),
    {
        decode_utf8_encode_utf8(self.bytes());
        lemma_text_bytes_ge_len(self.text());
        is_char_boundary_start_end_of_seq(self.bytes());
    }

    /// Creates an empty buffer.
    pub fn new() -> (r: Self)
        requires
            1 <= SIZE <= 255,
        ensures
            r.wf(),
            r.text() == Seq::<char>::empty(),
            r.bytes() == Seq::<u8>::empty(),
    {
        let r = FlatString { data: [0; SIZE], len: 0, chars: 0 };
        proof {
            assert(r.bytes() =~= Seq::<u8>::empty());
        }
        r
    }

    /// Creates a buffer holding the longest whole-character prefix of the
    /// text that fits the capacity.
    pub fn from_str(text: &str) -> (r: Self)
        requires
            1 <= SIZE <= 255,
        ensures
            r.wf(),
            r.text() == fit_prefix(text@, SIZE as int),
            r.bytes() == encode_utf8(fit_prefix(text@, SIZE as int)),
    {
        let mut this = Self::new();
        this.push_str(text);
        proof {
            assert(Seq::<char>::empty() + fit_prefix(text@, SIZE as int) =~= fit_prefix(
                text@,
                SIZE as int,
            ));
            assert(Seq::<u8>::empty() + encode_utf8(fit_prefix(text@, SIZE as int)) =~= encode_utf8(
                fit_prefix(text@, SIZE as int),
            ));
        }
        this
    }

    /// Clears the content: both counters return to zero.  The stored bytes
    /// are left as they are; they are never read back.
    pub fn clear(&mut self)
        requires
            old(self).wf(),
        ensures
            final(self).wf(),
            final(self).text() == Seq::<char>::empty(),
            final(self).bytes() == Seq::<u8>::empty(),
    {
        self.len = 0;
        self.chars = 0;
        proof {
            assert(self.bytes() =~= Seq::<u8>::empty());
        }
    }

    /// Length of the content in bytes.
    pub fn len(&self) -> (r: usize)
        requires
            self.wf(),
        ensures
            r == self.bytes().len(),
            r == text_bytes(self.text()),
            r <= SIZE,
    {
        proof {
            self.lemma_wf();
        }
        self.len as usize
    }

    /// True when the buffer holds no content.
    pub fn is_empty(&self) -> (r: bool)
        requires
            self.wf(),
        ensures
            r == (self.bytes().len() == 0),
            r == (self.text().len() == 0),
    {
        proof {
            self.lemma_wf();
            if self.bytes().len() == 0 {
                assert(self.bytes() =~= encode_utf8(self.text()));
                lemma_text_bytes_ge_len(self.text());
            }
        }
        self.len == 0
    }

    /// Number of characters in the content.
    pub fn chars_count(&self) -> (r: usize)
        requires
            self.wf(),
        ensures
            r == self.text().len(),
    {
        self.chars as usize
    }

    /// The fixed byte capacity.
    pub fn capacity(&self) -> (r: usize)
        requires
            self.wf(),
        ensures
            r == SIZE,
    {
        SIZE
    }

    /// Appends the whole text when it fits in the remaining room, and
    /// reports whether it did; a text that does not fit leaves the buffer
    /// unchanged.
    fn add_entire_string(&mut self, text: &str) -> (ok: bool)
        requires
            old(self).wf(),
        ensures
            final(self).wf(),
            ok == (old(self).bytes().len() + text.spec_bytes().len() <= SIZE),
            ok ==> final(self).bytes() == old(self).bytes() + text.spec_bytes(),
            ok ==> final(self).text() == old(self).text() + text@,
            !ok ==> *final(self) == *old(self),
    {
        proof {
            self.lemma_wf();
        }
        let bs = text.as_bytes();
        let tb = bs.len();
        let room = SIZE - self.len as usize;
        if tb <= room {
            let cnt = count_scan(bs, Ghost(text@));
            let at = self.len as usize;
            copy_into(&mut self.data, at, bs, tb);
            proof {
                assert(cnt <= tb);
                assert(self.chars as int + cnt as int <= SIZE);
            }
            self.len = self.len + tb as u8;
            self.chars = self.chars + cnt as u8;
            proof {
                assert(bs@.take(tb as int) =~= bs@);
                assert(self.bytes() =~= old(self).bytes() + text.spec_bytes());
                lemma_encode_concat(old(self).text(), text@);
                encode_utf8_valid_utf8(old(self).text() + text@);
                encode_utf8_decode_utf8(old(self).text() + text@);
            }
            true
        } else {
            false
        }
    }

    /// Appends the longest whole-character prefix of the text that fits in
    /// the remaining room.
    fn fill_with_str(&mut self, text: &str)
        requires
            old(self).wf(),
        ensures
            final(self).wf(),
            final(self).bytes() == old(self).bytes() + encode_utf8(
                fit_prefix(text@, SIZE - old(self).bytes().len()),
            ),
            final(self).text() == old(self).text() + fit_prefix(
                text@,
                SIZE - old(self).bytes().len(),
            ),
    {
        proof {
            self.lemma_wf();
        }
        let room = SIZE - self.len as usize;
        let ghost kept = fit_prefix(text@, room as int);
        let bs = text.as_bytes();
        let n = fit_scan(bs, room, Ghost(text@));
        let fitted = slice_subrange(bs, 0, n);
        let cnt = count_scan(fitted, Ghost(kept));
        let at = self.len as usize;
        copy_into(&mut self.data, at, fitted, n);
        proof {
            assert(cnt <= n);
            assert(self.chars as int + cnt as int <= SIZE);
        }
        self.len = self.len + n as u8;
        self.chars = self.chars + cnt as u8;
        proof {
            assert(fitted@.take(n as int) =~= fitted@);
            assert(self.bytes() =~= old(self).bytes() + encode_utf8(kept));
            lemma_encode_concat(old(self).text(), kept);
            encode_utf8_valid_utf8(old(self).text() + kept);
            encode_utf8_decode_utf8(old(self).text() + kept);
        }
    }

    /// Appends a text: whole when it fits, otherwise its longest
    /// whole-character prefix that does.
    pub fn push_str(&mut self, text: &str)
        requires
            old(self).wf(),
        ensures
            final(self).wf(),
            final(self).text() == old(self).text() + fit_prefix(
                text@,
                SIZE - old(self).bytes().len(),
            ),
            final(self).bytes() == old(self).bytes() + encode_utf8(
                fit_prefix(text@, SIZE - old(self).bytes().len()),
            ),
    {
        proof {
            old(self).lemma_wf();
        }
        if !self.add_entire_string(text) {
            self.fill_with_str(text);
        } else {
            proof {
                lemma_fit_prefix_complete(text@, SIZE - old(self).bytes().len());
            }
        }
    }

    /// Appends one character when its encoding fits in the remaining room;
    /// a character that does not fit is dropped whole.
    pub fn push(&mut self, c: char)
        requires
            old(self).wf(),
        ensures
            final(self).wf(),
            final(self).text() == old(self).text() + fit_prefix(
                seq![c],
                SIZE - old(self).bytes().len(),
            ),
            char_bytes(c) <= SIZE - old(self).bytes().len() ==> final(self).text() == old(
                self,
            ).text().push(c),
            char_bytes(c) > SIZE - old(self).bytes().len() ==> final(self).bytes() == old(
                self,
            ).bytes(),
    {
        let v = encode_char(c);
        proof {
            encode_utf8_valid_utf8(seq![c]);
        }
        let s = bytes_to_str(v.as_slice());
        proof {
            encode_utf8_decode_utf8(seq![c]);
            encode_utf8_decode_utf8(s@);
            assert(s@ == seq![c]);
        }
        self.push_str(s);
        proof {
            let room = SIZE - old(self).bytes().len();
            if char_bytes(c) <= room {
                assert(fit_count(seq![c], room) == 1 + fit_count(seq![c].drop_first(), room
                    - char_bytes(c)));
                assert(seq![c].take(1) =~= seq![c]);
                assert(old(self).text() + seq![c] =~= old(self).text().push(c));
            } else {
                assert(fit_count(seq![c], room) == 0);
                assert(seq![c].take(0) =~= Seq::<char>::empty());
                assert(encode_utf8(Seq::<char>::empty()) =~= Seq::<u8>::empty());
                assert(old(self).bytes() + Seq::<u8>::empty() =~= old(self).bytes());
            }
        }
    }

    /// Appends the whole text and returns the new content when it fits;
    /// returns `None` and leaves the buffer unchanged when it does not.
    pub fn try_push_str<'a>(&'a mut self, text: &str) -> (r: Option<&'a str>)
        requires
            old(self).wf(),
        ensures
            final(self).wf(),
            old(self).bytes().len() + text.spec_bytes().len() <= SIZE ==> final(self).text() == old(
                self,
            ).text() + text@ && (r matches Some(t) && t@ == final(self).text()),
            old(self).bytes().len() + text.spec_bytes().len() > SIZE ==> *final(self) == *old(self)
                && r is None,
    {
        if self.add_entire_string(text) {
            Some(self.as_str())
        } else {
            None
        }
    }

    /// Appends one character and returns the new content when its encoding
    /// fits; returns `None` and leaves the buffer unchanged when it does
    /// not.
    pub fn try_push<'a>(&'a mut self, c: char) -> (r: Option<&'a str>)
        requires
            old(self).wf(),
        ensures
            final(self).wf(),
            old(self).bytes().len() + char_bytes(c) <= SIZE ==> final(self).text() == old(
                self,
            ).text().push(c) && (r matches Some(t) && t@ == final(self).text()),
            old(self).bytes().len() + char_bytes(c) > SIZE ==> *final(self) == *old(self)
                && r is None,
    {
        let v = encode_char(c);
        proof {
            encode_utf8_valid_utf8(seq![c]);
        }
        let s = bytes_to_str(v.as_slice());
        proof {
            encode_utf8_decode_utf8(seq![c]);
            encode_utf8_decode_utf8(s@);
            assert(s@ == seq![c]);
            assert(old(self).text() + seq![c] =~= old(self).text().push(c));
        }
        if self.add_entire_string(s) {
            Some(self.as_str())
        } else {
            None
        }
    }

    /// Replaces the content with the text, truncated to the longest
    /// whole-character prefix that fits the capacity.
    pub fn set(&mut self, text: &str)
        requires
            old(self).wf(),
        ensures
            final(self).wf(),
            final(self).text() == fit_prefix(text@, SIZE as int),
            final(self).bytes() == encode_utf8(fit_prefix(text@, SIZE as int)),
    {
        self.clear();
        self.push_str(text);
        proof {
            assert(Seq::<char>::empty() + fit_prefix(text@, SIZE as int) =~= fit_prefix(
                text@,
                SIZE as int,
            ));
            assert(Seq::<u8>::empty() + encode_utf8(fit_prefix(text@, SIZE as int)) =~= encode_utf8(
                fit_prefix(text@, SIZE as int),
            ));
        }
    }

    /// The content as a string slice.
    pub fn as_str(&self) -> (r: &str)
        requires
            self.wf(),
        ensures
            r@ == self.text(),
            r.spec_bytes() == self.bytes(),
    {
        let sl = slice_subrange(self.data.as_slice(), 0, self.len as usize);
        let r = bytes_to_str(sl);
        proof {
            encode_utf8_decode_utf8(r@);
            decode_utf8_encode_utf8(self.bytes());
        }
        r
    }

    /// Shortens the content to `new_len` bytes.  A `new_len` at or past the
    /// current byte length leaves the buffer unchanged; otherwise it must
    /// sit on a character boundary and the content past it is dropped.
    pub fn truncate(&mut self, new_len: usize)
        requires
            old(self).wf(),
            new_len < old(self).bytes().len() ==> is_char_boundary(
                old(self).bytes(),
                new_len as int,
            ),
        ensures
            final(self).wf(),
            new_len >= old(self).bytes().len() ==> *final(self) == *old(self),
            new_len < old(self).bytes().len() ==> {
                &&& final(self).bytes() == old(self).bytes().take(new_len as int)
                &&& final(self).text() == decode_utf8(old(self).bytes().take(new_len as int))
                &&& final(self).text().is_prefix_of(old(self).text())
                &&& text_bytes(final(self).text()) == new_len
            },
    {
        if new_len >= self.len as usize {
            return ;
        }
        let ghost kept_bytes = old(self).bytes().take(new_len as int);
        proof {
            valid_utf8_split(old(self).bytes(), new_len as int);
            decode_utf8_split(old(self).bytes(), new_len as int);
            decode_utf8_encode_utf8(kept_bytes);
        }
        let pre = slice_subrange(self.data.as_slice(), 0, new_len);
        proof {
            assert(pre@ =~= kept_bytes);
        }
        let cnt = count_scan(pre, Ghost(decode_utf8(kept_bytes)));
        self.chars = cnt as u8;
        self.len = new_len as u8;
        proof {
            assert(self.bytes() =~= kept_bytes);
        }
    }

    /// Removes and returns the last character; returns `None` when the
    /// buffer is empty.
    pub fn pop(&mut self) -> (r: Option<char>)
        requires
            old(self).wf(),
        ensures
            final(self).wf(),
            old(self).text().len() == 0 ==> r is None && *final(self) == *old(self),
            old(self).text().len() > 0 ==> {
                &&& r matches Some(c) && c == old(self).text().last()
                &&& final(self).text() == old(self).text().drop_last()
                &&& final(self).bytes().len() == old(self).bytes().len() - char_bytes(
                    old(self).text().last(),
                )
            },
    {
        if self.chars == 0 {
            proof {
                self.lemma_wf();
            }
            return None;
        }
        let ghost obytes = old(self).bytes();
        let len = self.len as usize;
        proof {
            self.lemma_wf();
            lemma_text_bytes_ge_len(self.text());
            assert(obytes.len() > 0);
        }
        let mut j: usize = len - 1;
        loop
            invariant
                *self == *old(self),
                self.wf(),
                self.len as usize == len,
                obytes == self.bytes(),
                0 <= j < len,
                forall|k: int| j < k < len ==> is_continuation_byte(#[trigger] obytes[k]),
            ensures
                *self == *old(self),
                0 <= j < len,
                !is_continuation_byte(obytes[j as int]),
                forall|k: int| j < k < len ==> is_continuation_byte(#[trigger] obytes[k]),
            decreases j,
        {
            let b = self.data[j];
            proof {
                assert(obytes[j as int] == b);
            }
            if !(b >= 0x80 && b < 0xc0) {
                break ;
            }
            proof {
                lemma_leading_not_continuation(obytes);
                assert(j != 0);
            }
            j = j - 1;
        }
        proof {
            is_char_boundary_iff_not_is_continuation_byte(obytes, j as int);
            lemma_boundary_step(obytes, j as int);
            let tail = obytes.subrange(j as int, len as int);
            assert(length_of_first_scalar(tail) == len - j) by {
                if j + length_of_first_scalar(tail) < len {
                    assert(is_continuation_byte(obytes[j + length_of_first_scalar(tail)]));
                }
            }
            lemma_single_scalar_decode(tail);
            decode_utf8_split(obytes, j as int);
            decode_utf8_encode_utf8(tail);
            assert(self.data@.subrange(j as int, len as int) =~= tail);
        }
        let s = bytes_to_str(slice_subrange(self.data.as_slice(), j, len));
        proof {
            encode_utf8_decode_utf8(s@);
        }
        let c = s.get_char(0);
        self.len = j as u8;
        self.chars = self.chars - 1;
        proof {
            let tail = obytes.subrange(j as int, len as int);
            valid_utf8_split(obytes, j as int);
            assert(self.bytes() =~= obytes.take(j as int));
            assert(old(self).text() =~= self.text() + seq![c]);
            assert(old(self).text().last() == c);
            assert(self.text() =~= old(self).text().drop_last());
            decode_utf8_encode_utf8(obytes);
            assert(seq![c] =~= decode_utf8(tail));
            decode_utf8_encode_utf8(tail);
            assert(encode_utf8(seq![c]) == tail);
            assert(seq![c].drop_first() =~= Seq::<char>::empty());
            assert(encode_utf8(seq![c]) == vstd::utf8::encode_scalar(c as u32) + encode_utf8(
                seq![c].drop_first(),
            ));
            assert(char_bytes(c) == len - j);
        }
        Some(c)
    }

    /// Inserts a text at byte position `idx`, which must sit on a character
    /// boundary of the content.  Content that no longer fits is dropped in
    /// whole characters, as [`insert_bytes`] states.
    pub fn insert(&mut self, idx: usize, text: &str)
        requires
            old(self).wf(),
            idx <= old(self).bytes().len(),
            is_char_boundary(old(self).bytes(), idx as int),
        ensures
            final(self).wf(),
            final(self).bytes() == insert_bytes(
                old(self).bytes(),
                idx as int,
                text.spec_bytes(),
                SIZE as int,
            ),
    {
        let ghost obytes = old(self).bytes();
        let bs = text.as_bytes();
        let tb = bs.len();
        let len = self.len as usize;
        proof {
            self.lemma_wf();
        }
        if tb < SIZE - idx {
            // The whole text fits at idx with room behind it: shift the old
            // suffix right by the text's length, keeping its longest
            // fitting prefix, and lay the parts out in a fresh array.
            let ghost suffix = obytes.skip(idx as int);
            proof {
                valid_utf8_split(obytes, idx as int);
                decode_utf8_encode_utf8(suffix);
            }
            let suf = slice_subrange(self.data.as_slice(), idx, len);
            proof {
                assert(suf@ =~= suffix);
            }
            let nk = fit_scan(suf, SIZE - idx - tb, Ghost(decode_utf8(suffix)));
            let mut nd: [u8; SIZE] = [0; SIZE];
            copy_into(&mut nd, 0, self.data.as_slice(), idx);
            copy_into(&mut nd, idx, bs, tb);
            copy_into(&mut nd, idx + tb, suf, nk);
            let new_len = idx + tb + nk;
            self.data = nd;
            self.len = new_len as u8;
            let ghost kept = fit_prefix(decode_utf8(suffix), SIZE as int - idx - tb);
            let ghost pre_text = decode_utf8(obytes.take(idx as int));
            proof {
                assert(self.bytes() =~= obytes.take(idx as int) + text.spec_bytes()
                    + encode_utf8(kept));
                decode_utf8_encode_utf8(obytes.take(idx as int));
                lemma_encode_concat(pre_text, text@);
                lemma_encode_concat(pre_text + text@, kept);
                assert(encode_utf8((pre_text + text@) + kept) =~= self.bytes());
                encode_utf8_valid_utf8((pre_text + text@) + kept);
                encode_utf8_decode_utf8((pre_text + text@) + kept);
            }
            let total = slice_subrange(self.data.as_slice(), 0, new_len);
            proof {
                assert(total@ =~= self.bytes());
            }
            let cnt = count_scan(total, Ghost((pre_text + text@) + kept));
            self.chars = cnt as u8;
        } else {
            // No room to shift: the fitting prefix of the text overwrites
            // the content in place.
            proof {
                encode_utf8_decode_utf8(text@);
            }
            let w = fit_scan(bs, SIZE - idx, Ghost(text@));
            let ghost written = text.spec_bytes().take(w as int);
            copy_into(&mut self.data, idx, bs, w);
            let end = idx + w;
            let keep_tail: bool;
            if end >= len {
                keep_tail = false;
            } else {
                let b = self.data[end];
                proof {
                    assert(b == obytes[end as int]);
                    is_char_boundary_iff_not_is_continuation_byte(obytes, end as int);
                }
                // The old content behind the overwrite survives only when
                // the overwrite ends on one of its character boundaries.
                keep_tail = !(b >= 0x80 && b < 0xc0);
            }
            let new_len = if keep_tail {
                len
            } else {
                end
            };
            self.len = new_len as u8;
            let ghost pre_text = decode_utf8(obytes.take(idx as int));
            let ghost fitted = fit_prefix(text@, SIZE as int - idx);
            let ghost tail_text = decode_utf8(obytes.skip(end as int));
            proof {
                valid_utf8_split(obytes, idx as int);
                decode_utf8_encode_utf8(obytes.take(idx as int));
                if keep_tail {
                    assert(is_char_boundary(obytes, end as int));
                    valid_utf8_split(obytes, end as int);
                    decode_utf8_encode_utf8(obytes.skip(end as int));
                    assert(self.bytes() =~= obytes.take(idx as int) + written + obytes.skip(
                        end as int,
                    ));
                    lemma_encode_concat(pre_text, fitted);
                    lemma_encode_concat(pre_text + fitted, tail_text);
                    assert(encode_utf8((pre_text + fitted) + tail_text) =~= self.bytes());
                    encode_utf8_valid_utf8((pre_text + fitted) + tail_text);
                    encode_utf8_decode_utf8((pre_text + fitted) + tail_text);
                } else {
                    assert(self.bytes() =~= obytes.take(idx as int) + written);
                    lemma_encode_concat(pre_text, fitted);
                    assert(encode_utf8(pre_text + fitted) =~= self.bytes());
                    encode_utf8_valid_utf8(pre_text + fitted);
                    encode_utf8_decode_utf8(pre_text + fitted);
                }
            }
            let total = slice_subrange(self.data.as_slice(), 0, new_len);
            let ghost new_text = if keep_tail {
                (pre_text + fitted) + tail_text
            } else {
                pre_text + fitted
            };
            proof {
                assert(total@ =~= self.bytes());
            }
            let cnt = count_scan(total, Ghost(new_text));
            self.chars = cnt as u8;
        }
    }

    /// Inserts one character at byte position `idx`, which must sit on a
    /// character boundary of the content, under the same drop policy as
    /// [`FlatString::insert`].
    pub fn insert_char(&mut self, idx: usize, ch: char)
        requires
            old(self).wf(),
            idx <= old(self).bytes().len(),
            is_char_boundary(old(self).bytes(), idx as int),
        ensures
            final(self).wf(),
            final(self).bytes() == insert_bytes(
                old(self).bytes(),
                idx as int,
                encode_utf8(seq![ch]),
                SIZE as int,
            ),
    {
        let v = encode_char(ch);
        proof {
            encode_utf8_valid_utf8(seq![ch]);
        }
        let s = bytes_to_str(v.as_slice());
        self.insert(idx, s);
    }

    /// Removes and returns the character starting at byte position `idx`,
    /// which must sit on a character boundary inside the content; the
    /// content behind it moves down.
    pub fn remove(&mut self, idx: usize) -> (r: char)
        requires
            old(self).wf(),
            idx < old(self).bytes().len(),
            is_char_boundary(old(self).bytes(), idx as int),
        ensures
            final(self).wf(),
            ({
                let k = decode_utf8(old(self).bytes().take(idx as int)).len() as int;
                &&& r == old(self).text()[k]
                &&& final(self).text() == old(self).text().remove(k)
                &&& final(self).bytes() == old(self).bytes().take(idx as int) + old(
                    self,
                ).bytes().skip(idx as int + char_bytes(r))
            }),
    {
        let ghost obytes = old(self).bytes();
        let len = self.len as usize;
        proof {
            lemma_boundary_step(obytes, idx as int);
            valid_utf8_split(obytes, idx as int);
            lemma_leading_not_continuation(obytes.subrange(idx as int, len as int));
            assert(obytes[idx as int] == self.data@[idx as int]);
        }
        let b = self.data[idx];
        let w = scalar_width(b);
        let ghost tail = obytes.subrange(idx as int, len as int);
        proof {
            assert(valid_leading_and_continuation_bytes_first_codepoint(tail));
            assert(tail[0] == b);
            assert(length_of_first_scalar(tail) == w);
            assert(idx + w <= len);
            // The w bytes at idx are exactly one character's encoding.
            let mid = obytes.subrange(idx as int, idx as int + w);
            assert(is_char_boundary(obytes, idx as int + w));
            valid_utf8_split(obytes, idx as int + w);
            assert(is_char_boundary(obytes.take(idx as int + w), idx as int)) by {
                if idx > 0 {
                    is_char_boundary_iff_not_is_continuation_byte(
                        obytes.take(idx as int + w),
                        idx as int,
                    );
                    is_char_boundary_iff_not_is_continuation_byte(obytes, idx as int);
                }
            }
            valid_utf8_split(obytes.take(idx as int + w), idx as int);
            assert(obytes.take(idx as int + w).subrange(0, idx as int) =~= obytes.take(
                idx as int,
            ));
            assert(obytes.take(idx as int + w).subrange(idx as int, idx as int + w) =~= mid);
            assert(valid_utf8(mid));
            assert(mid.len() == w);
            assert(forall|q: int| 0 <= q < w ==> mid[q] == tail[q]);
            assert(valid_leading_and_continuation_bytes_first_codepoint(mid));
            assert(length_of_first_scalar(mid) == w);
            assert(vstd::utf8::decode_first_codepoint(mid) == vstd::utf8::decode_first_codepoint(
                tail,
            ));
            lemma_single_scalar_decode(mid);
            decode_utf8_encode_utf8(mid);
            assert(self.data@.subrange(idx as int, idx as int + w) =~= mid);
        }
        let s = bytes_to_str(slice_subrange(self.data.as_slice(), idx, idx + w));
        proof {
            encode_utf8_decode_utf8(s@);
        }
        let c = s.get_char(0);
        // Move the content behind the removed character down by w bytes.
        let mut i: usize = idx;
        while i + w < len
            invariant
                idx <= i,
                i + w <= len <= SIZE,
                self.data@.len() == SIZE,
                self.len == old(self).len,
                self.chars == old(self).chars,
                len == old(self).len as usize,
                forall|q: int| idx <= q < i ==> self.data@[q] == old(self).data@[q + w],
                forall|q: int|
                    (0 <= q < idx || i <= q < SIZE) ==> self.data@[q] == old(self).data@[q],
            decreases len - i,
        {
            let v = self.data[i + w];
            self.data[i] = v;
            i = i + 1;
        }
        self.len = (len - w) as u8;
        self.chars = self.chars - 1;
        proof {
            let mid = obytes.subrange(idx as int, idx as int + w);
            let rest = obytes.subrange(idx as int + w, len as int);
            assert(self.bytes() =~= obytes.take(idx as int) + rest);
            // Validity of the two kept parts, and of their concatenation.
            valid_utf8_split(obytes, idx as int + w);
            valid_utf8_split(obytes, idx as int);
            valid_utf8_concat(obytes.take(idx as int), rest);
            // The removed character is the first of the old suffix.
            assert(pop_first_scalar(tail) =~= rest);
            assert(decode_utf8(tail) =~= seq![c] + decode_utf8(rest));
            decode_utf8_split(obytes, idx as int);
            let pre_text = decode_utf8(obytes.take(idx as int));
            assert(old(self).text() =~= pre_text + seq![c] + decode_utf8(rest));
            // The new text is the old text with that character removed.
            decode_utf8_encode_utf8(obytes.take(idx as int));
            decode_utf8_encode_utf8(rest);
            lemma_encode_concat(pre_text, decode_utf8(rest));
            encode_utf8_decode_utf8(pre_text + decode_utf8(rest));
            assert(self.text() =~= pre_text + decode_utf8(rest));
            assert(self.text() =~= old(self).text().remove(pre_text.len() as int));
            assert(old(self).text()[pre_text.len() as int] == c);
            assert(char_bytes(c) == w) by {
                assert(seq![c] =~= decode_utf8(mid));
                decode_utf8_encode_utf8(mid);
                assert(encode_utf8(seq![c]) == mid);
                assert(seq![c].drop_first() =~= Seq::<char>::empty());
                assert(encode_utf8(seq![c]) == vstd::utf8::encode_scalar(c as u32) + encode_utf8(
                    seq![c].drop_first(),
                ));
            }
        }
        c
    }
}

/// A leading byte is never a continuation byte.
proof fn lemma_leading_not_continuation(bytes: Seq<u8>)
    requires
        valid_utf8(bytes),
        bytes.len() > 0,
    ensures
        !is_continuation_byte(bytes[0]),
        is_leading_byte_width_1(bytes[0]) || is_leading_byte_width_2(bytes[0])
            || is_leading_byte_width_3(bytes[0]) || is_leading_byte_width_4(bytes[0]),
{
    assert(valid_first_scalar(bytes));
}

/// A byte sequence holding exactly one character's encoding decodes to that
/// one character.
proof fn lemma_single_scalar_decode(s: Seq<u8>)
    requires
        valid_utf8(s),
        s.len() > 0,
        length_of_first_scalar(s) == s.len(),
    ensures
        decode_utf8(s) == seq![decode_first_scalar(s) as char],
        decode_utf8(s).len() == 1,
{
    assert(pop_first_scalar(s) =~= Seq::<u8>::empty());
    assert(decode_utf8(pop_first_scalar(s)) =~= Seq::<char>::empty());
    assert(decode_utf8(s) =~= seq![decode_first_scalar(s) as char]);
}

/// From a character boundary inside valid UTF-8, the next boundary sits one
/// whole character further on.
proof fn lemma_boundary_step(bytes: Seq<u8>, i: int)
    requires
        valid_utf8(bytes),
        is_char_boundary(bytes, i),
        0 <= i < bytes.len(),
    ensures
        ({
            let tail = bytes.subrange(i, bytes.len() as int);
            &&& valid_utf8(tail)
            &&& valid_first_scalar(tail)
            &&& 1 <= length_of_first_scalar(tail) <= bytes.len() - i
            &&& is_char_boundary(bytes, i + length_of_first_scalar(tail))
            &&& i + length_of_first_scalar(tail) < bytes.len() ==> !is_continuation_byte(
                bytes[i + length_of_first_scalar(tail)],
            )
        }),
{
    valid_utf8_split(bytes, i);
    let tail = bytes.subrange(i, bytes.len() as int);
    assert(valid_first_scalar(tail));
    let ell = length_of_first_scalar(tail);
    if i + ell == bytes.len() {
        is_char_boundary_start_end_of_seq(bytes);
    } else {
        let rest = pop_first_scalar(tail);
        assert(rest =~= bytes.subrange(i + ell, bytes.len() as int));
        lemma_leading_not_continuation(rest);
        assert(bytes[i + ell] == rest[0]);
        is_char_boundary_iff_not_is_continuation_byte(bytes, i + ell);
    }
}

/// Relies on `std::str::from_utf8`: on a valid UTF-8 byte sequence it
/// returns `Ok` with the string slice whose byte encoding is exactly the
/// input.
#[verifier::external_body]
fn bytes_to_str(bytes: &[u8]) -> (r: &str)
    requires
        valid_utf8(bytes@),
    ensures
        r.spec_bytes() == bytes@,
{
    match std::str::from_utf8(bytes) {
        Ok(s) => s,
        Err(_) => "",
    }
}

} // verus!
