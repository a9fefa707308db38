//! Document text access: UTF-16 code units recoded to UTF-8 bytes, and
//! byte-level substring containment.
//!
//! Documents are supplied as UTF-16-equivalent code units. Query predicates
//! compare node text against UTF-8 literals, so captured spans are recoded:
//! surrogate pairs combine into one scalar, unpaired surrogates become the
//! replacement character, and each scalar is encoded as 1 to 4 bytes.

use vstd::prelude::*;

verus! {

/// Relies on str's `==`: character-for-character equality of two strings.
#[verifier::external_body]
pub(crate) fn str_eq(a: &str, b: &str) -> (r: bool)
    ensures
        r == (a@ == b@),
{
    a == b
}

pub open spec fn is_high_surrogate(u: u16) -> bool {
    0xD800 <= u <= 0xDBFF
}

pub open spec fn is_low_surrogate(u: u16) -> bool {
    0xDC00 <= u <= 0xDFFF
}

/// The scalar value encoded by a surrogate pair.
pub open spec fn combine_surrogates(hi: u16, lo: u16) -> u32
    recommends
        is_high_surrogate(hi),
        is_low_surrogate(lo),
{
    (0x10000 + (hi - 0xD800) * 0x400 + (lo - 0xDC00)) as u32
}

/// The Unicode scalar values of a UTF-16 code unit sequence, with every
/// unpaired surrogate replaced by U+FFFD.
pub open spec fn utf16_scalars(s: Seq<u16>) -> Seq<u32>
    decreases s.len(),
{
    if s.len() == 0 {
        Seq::empty()
    } else if is_high_surrogate(s[0]) && s.len() >= 2 && is_low_surrogate(s[1]) {
        seq![combine_surrogates(s[0], s[1])] + utf16_scalars(s.skip(2))
    } else if is_high_surrogate(s[0]) || is_low_surrogate(s[0]) {
        seq![0xFFFDu32] + utf16_scalars(s.skip(1))
    } else {
        seq![s[0] as u32] + utf16_scalars(s.skip(1))
    }
}

/// The UTF-8 encoding of one scalar value.
pub open spec fn utf8_bytes_of_scalar(c: u32) -> Seq<u8>
    recommends
        c <= 0x10FFFF,
{
    if c < 0x80 {
        seq![c as u8]
    } else if c < 0x800 {
        seq![(0xC0 + c / 0x40) as u8, (0x80 + c % 0x40) as u8]
    } else if c < 0x10000 {
        seq![(0xE0 + c / 0x1000) as u8, (0x80 + (c / 0x40) % 0x40) as u8, (0x80 + c % 0x40) as u8]
    } else {
        seq![
            (0xF0 + c / 0x40000) as u8,
            (0x80 + (c / 0x1000) % 0x40) as u8,
            (0x80 + (c / 0x40) % 0x40) as u8,
            (0x80 + c % 0x40) as u8,
        ]
    }
}

pub open spec fn utf8_bytes_of_scalars(s: Seq<u32>) -> Seq<u8>
    decreases s.len(),
{
    if s.len() == 0 {
        Seq::empty()
    } else {
        utf8_bytes_of_scalar(s[0]) + utf8_bytes_of_scalars(s.skip(1))
    }
}

/// The UTF-8 bytes of a UTF-16 code unit sequence.
pub open spec fn recoded_utf8(s: Seq<u16>) -> Seq<u8> {
    utf8_bytes_of_scalars(utf16_scalars(s))
}

proof fn lemma_utf8_bytes_unfold(s: Seq<u32>)
    requires
        s.len() >= 1,
    ensures
        utf8_bytes_of_scalars(s) == utf8_bytes_of_scalar(s[0]) + utf8_bytes_of_scalars(s.skip(1)),
{
}

/// Push the UTF-8 encoding of one scalar onto `out`.
fn push_scalar_utf8(out: &mut Vec<u8>, c: u32)
    requires
        c <= 0x10FFFF,
    ensures
        final(out)@ == old(out)@ + utf8_bytes_of_scalar(c),
{
    if c < 0x80 {
        out.push(c as u8);
    } else if c < 0x800 {
        out.push((0xC0 + c / 0x40) as u8);
        out.push((0x80 + c % 0x40) as u8);
    } else if c < 0x10000 {
        out.push((0xE0 + c / 0x1000) as u8);
        out.push((0x80 + (c / 0x40) % 0x40) as u8);
        out.push((0x80 + c % 0x40) as u8);
    } else {
        out.push((0xF0 + c / 0x40000) as u8);
        out.push((0x80 + (c / 0x1000) % 0x40) as u8);
        out.push((0x80 + (c / 0x40) % 0x40) as u8);
        out.push((0x80 + c % 0x40) as u8);
    }
    assert(out@ =~= old(out)@ + utf8_bytes_of_scalar(c));
}

/// Recode `text[start..end]` (native code-unit indices) to UTF-8 bytes.
pub fn recode_utf16(text: &[u16], start: usize, end: usize) -> (r: Vec<u8>)
    requires
        start <= end <= text@.len(),
    ensures
        r@ == recoded_utf8(text@.subrange(start as int, end as int)),
{
    let ghost full = text@.subrange(start as int, end as int);
    let mut out: Vec<u8> = Vec::new();
    let mut i: usize = start;
    while i < end
        invariant
            start <= i <= end <= text@.len(),
            full == text@.subrange(start as int, end as int),
            recoded_utf8(full) == out@ + recoded_utf8(text@.subrange(i as int, end as int)),
        decreases end - i,
    {
        let ghost suffix = text@.subrange(i as int, end as int);
        let u = text[i];
        if 0xD800 <= u && u <= 0xDBFF && i + 1 < end && 0xDC00 <= text[i + 1] && text[i + 1]
            <= 0xDFFF {
            let lo = text[i + 1];
            let c: u32 = 0x10000 + ((u as u32) - 0xD800) * 0x400 + ((lo as u32) - 0xDC00);
            proof {
                assert(suffix[0] == u && suffix[1] == lo);
                assert(utf16_scalars(suffix) == seq![combine_surrogates(u, lo)] + utf16_scalars(
                    suffix.skip(2),
                ));
                assert(utf16_scalars(suffix)[0] == combine_surrogates(u, lo));
                assert(utf16_scalars(suffix).skip(1) =~= utf16_scalars(suffix.skip(2)));
                lemma_utf8_bytes_unfold(utf16_scalars(suffix));
                assert(suffix.skip(2) =~= text@.subrange(i + 2, end as int));
                assert(c == combine_surrogates(u, lo));
            }
            push_scalar_utf8(&mut out, c);
            i = i + 2;
        } else {
            let c: u32 = if (0xD800 <= u && u <= 0xDBFF) || (0xDC00 <= u && u <= 0xDFFF) {
                0xFFFD
            } else {
                u as u32
            };
            proof {
                assert(suffix[0] == u);
                if is_high_surrogate(u) && suffix.len() >= 2 && is_low_surrogate(suffix[1]) {
                    assert(i + 1 < end);
                    assert(suffix[1] == text@[i + 1]);
                    assert(false);
                }
                assert(utf16_scalars(suffix) == seq![c] + utf16_scalars(suffix.skip(1)));
                assert(utf16_scalars(suffix)[0] == c);
                assert(utf16_scalars(suffix).skip(1) =~= utf16_scalars(suffix.skip(1)));
                lemma_utf8_bytes_unfold(utf16_scalars(suffix));
                assert(suffix.skip(1) =~= text@.subrange(i + 1, end as int));
            }
            push_scalar_utf8(&mut out, c);
            i = i + 1;
        }
    }
    proof {
        assert(text@.subrange(i as int, end as int) =~= Seq::<u16>::empty());
        assert(recoded_utf8(Seq::<u16>::empty()) =~= Seq::<u8>::empty());
    }
    out
}

/// `pat` occurs in `text` starting at position `i`.
pub open spec fn bytes_match_at(text: Seq<u8>, pat: Seq<u8>, i: int) -> bool {
    &&& 0 <= i
    &&& i + pat.len() <= text.len()
    &&& text.subrange(i, i + pat.len()) == pat
}

/// `pat` occurs somewhere in `text`; the empty pattern always occurs.
pub open spec fn contains_bytes(text: Seq<u8>, pat: Seq<u8>) -> bool {
    exists|i: int| bytes_match_at(text, pat, i)
}

/// Substring search over byte sequences.
pub fn find_bytes(text: &Vec<u8>, pat: &Vec<u8>) -> (r: bool)
    ensures
        r == contains_bytes(text@, pat@),
{
    let n = text.len();
    let m = pat.len();
    if m > n {
        proof {
            assert forall|i: int| !bytes_match_at(text@, pat@, i) by {}
        }
        return false;
    }
    if m == 0 {
        proof {
            assert(text@.subrange(0, 0) =~= pat@);
            assert(bytes_match_at(text@, pat@, 0));
        }
        return true;
    }
    let mut i: usize = 0;
    while i <= n - m
        invariant
            m <= n == text@.len(),
            m == pat@.len(),
            m >= 1,
            i <= n - m + 1,
            forall|k: int| 0 <= k < i ==> !bytes_match_at(text@, pat@, k),
        decreases n - i,
    {
        let mut k: usize = 0;
        let mut matched = true;
        while k < m
            invariant
                m <= n == text@.len(),
                m == pat@.len(),
                i + m <= n,
                k <= m,
                matched ==> forall|q: int| 0 <= q < k ==> text@[i + q] == pat@[q],
                !matched ==> !bytes_match_at(text@, pat@, i as int),
            decreases m - k,
        {
            if text[i + k] != pat[k] {
                proof {
                    if bytes_match_at(text@, pat@, i as int) {
                        assert(text@.subrange(i as int, i + pat@.len())[k as int] == pat@[k as int]);
                    }
                }
                matched = false;
                k = m;
            } else {
                k = k + 1;
            }
        }
        if matched {
            proof {
                assert(text@.subrange(i as int, i + pat@.len()) =~= pat@);
                assert(bytes_match_at(text@, pat@, i as int));
            }
            return true;
        }
        i = i + 1;
    }
    proof {
        assert forall|q: int| !bytes_match_at(text@, pat@, q) by {
            if 0 <= q && q + pat@.len() <= text@.len() {
                assert(q < i);
            }
        }
    }
    false
}

/// Supplies recoded UTF-8 text for captured spans of a UTF-16 document.
/// Spans arrive in doubled units and are halved here.
pub struct RecodingUtf16TextProvider<'a> {
    text: &'a [u16],
}

impl<'a> RecodingUtf16TextProvider<'a> {
    pub closed spec fn spec_text(&self) -> Seq<u16> {
        self.text@
    }

    pub fn new(text: &'a [u16]) -> (r: RecodingUtf16TextProvider<'a>)
        ensures
            r.spec_text() == text@,
    {
        RecodingUtf16TextProvider { text }
    }

    /// The UTF-8 bytes of the span `[start_byte, end_byte)` given in doubled
    /// units. A span outside the document is clamped to it.
    pub fn text(&self, start_byte: usize, end_byte: usize) -> (r: RecodingUtf16TextProviderIterator<
        'a,
    >)
        ensures
            r.spec_text() == self.spec_text(),
            r.spec_start() == start_byte / 2,
            r.spec_end() == end_byte / 2,
            !r.spec_ended(),
    {
        RecodingUtf16TextProviderIterator {
            text: self.text,
            start_offset: start_byte / 2,
            end_offset: end_byte / 2,
            ended: false,
        }
    }
}

/// Yields the recoded bytes of one span as a single chunk.
pub struct RecodingUtf16TextProviderIterator<'a> {
    text: &'a [u16],
    start_offset: usize,
    end_offset: usize,
    ended: bool,
}

impl<'a> RecodingUtf16TextProviderIterator<'a> {
    pub closed spec fn spec_text(&self) -> Seq<u16> {
        self.text@
    }

    pub closed spec fn spec_start(&self) -> usize {
        self.start_offset
    }

    pub closed spec fn spec_end(&self) -> usize {
        self.end_offset
    }

    pub closed spec fn spec_ended(&self) -> bool {
        self.ended
    }

    /// The next chunk of recoded text, or `None` once exhausted.
    pub fn next(&mut self) -> (r: Option<Vec<u8>>)
        ensures
            final(self).spec_text() == old(self).spec_text(),
            final(self).spec_ended(),
            match r {
                Some(chunk) => !old(self).spec_ended() && chunk@ == recoded_utf8(
                    old(self).spec_text().subrange(
                        clamp_span(
                            old(self).spec_text().len() as int,
                            old(self).spec_start() as int,
                            old(self).spec_end() as int,
                        ).0,
                        clamp_span(
                            old(self).spec_text().len() as int,
                            old(self).spec_start() as int,
                            old(self).spec_end() as int,
                        ).1,
                    ),
                ),
                None => old(self).spec_ended(),
            },
    {
        if self.ended {
            return None;
        }
        self.ended = true;
        let len = self.text.len();
        let s = if self.start_offset <= len {
            self.start_offset
        } else {
            len
        };
        let e = if self.end_offset <= len {
            self.end_offset
        } else {
            len
        };
        let e2 = if s <= e {
            e
        } else {
            s
        };
        Some(recode_utf16(self.text, s, e2))
    }
}

pub open spec fn is_dec_digit(b: u8) -> bool {
    0x30 <= b <= 0x39
}

pub open spec fn all_dec_digits(s: Seq<u8>) -> bool {
    forall|i: int| 0 <= i < s.len() ==> is_dec_digit(#[trigger] s[i])
}

/// The value of a non-empty string of decimal digits.
pub open spec fn dec_digits_value(s: Seq<u8>) -> int
    decreases s.len(),
{
    if s.len() == 0 {
        0
    } else {
        dec_digits_value(s.drop_last()) * 10 + (s.last() - 0x30)
    }
}

/// The signed 32-bit integer denoted by an ASCII string: an optional sign
/// followed by one or more decimal digits, within the type's range.
pub open spec fn spec_parse_i32(s: Seq<u8>) -> Option<i32> {
    if s.len() == 0 {
        None
    } else {
        let neg = s[0] == 0x2d;
        let digits = if s[0] == 0x2d || s[0] == 0x2b {
            s.skip(1)
        } else {
            s
        };
        if digits.len() == 0 || !all_dec_digits(digits) {
            None
        } else {
            let v = dec_digits_value(digits);
            if neg {
                if v <= 0x8000_0000 {
                    Some((-v) as i32)
                } else {
                    None
                }
            } else {
                if v <= 0x7fff_ffff {
                    Some(v as i32)
                } else {
                    None
                }
            }
        }
    }
}

proof fn lemma_dec_digits_nonneg(s: Seq<u8>)
    requires
        all_dec_digits(s),
    ensures
        dec_digits_value(s) >= 0,
    decreases s.len(),
{
    if s.len() > 0 {
        assert(all_dec_digits(s.drop_last())) by {
            assert(forall|i: int|
                0 <= i < s.len() - 1 ==> is_dec_digit(#[trigger] s.drop_last()[i]) == is_dec_digit(
                    s[i],
                ));
        }
        lemma_dec_digits_nonneg(s.drop_last());
    }
}

proof fn lemma_dec_digits_prefix_le(s: Seq<u8>, k: int)
    requires
        all_dec_digits(s),
        0 <= k <= s.len(),
    ensures
        dec_digits_value(s.take(k)) <= dec_digits_value(s),
    decreases s.len() - k,
{
    if k < s.len() {
        lemma_dec_digits_prefix_le(s, k + 1);
        let t = s.take(k + 1);
        assert(t.drop_last() =~= s.take(k));
        assert(all_dec_digits(s.take(k))) by {
            assert(forall|i: int|
                0 <= i < k ==> is_dec_digit(#[trigger] s.take(k)[i]) == is_dec_digit(s[i]));
        }
        lemma_dec_digits_nonneg(s.take(k));
        assert(dec_digits_value(t) == dec_digits_value(s.take(k)) * 10 + (t.last() - 0x30));
        assert(dec_digits_value(s.take(k)) <= dec_digits_value(t));
    } else {
        assert(s.take(k) =~= s);
    }
}

/// Parse an optional-sign decimal integer, exactly as `spec_parse_i32`
/// describes it.
pub fn parse_i32(s: &[u8]) -> (r: Option<i32>)
    ensures
        r == spec_parse_i32(s@),
{
    let n: usize = s.len();
    if n == 0 {
        return None;
    }
    let neg = s[0] == 0x2d;
    let start: usize = if s[0] == 0x2d || s[0] == 0x2b {
        1
    } else {
        0
    };
    let ghost digits = s@.skip(start as int);
    proof {
        if !(s@[0] == 0x2d || s@[0] == 0x2b) {
            assert(s@.skip(0) =~= s@);
        }
        assert(digits == if s@[0] == 0x2d || s@[0] == 0x2b {
            s@.skip(1)
        } else {
            s@
        });
    }
    if n == start {
        return None;
    }
    let mut acc: u64 = 0;
    let mut i: usize = start;
    while i < n
        invariant
            start <= i <= n == s@.len(),
            start < n,
            digits == s@.skip(start as int),
            digits == (if s@[0] == 0x2d || s@[0] == 0x2b {
                s@.skip(1)
            } else {
                s@
            }),
            neg == (s@[0] == 0x2d),
            all_dec_digits(s@.subrange(start as int, i as int)),
            acc == dec_digits_value(s@.subrange(start as int, i as int)),
            acc <= 0x8000_0000,
        decreases n - i,
    {
        let b = s[i];
        if b < 0x30 || b > 0x39 {
            proof {
                assert(digits[i - start] == s@[i as int]);
                assert(!all_dec_digits(digits));
            }
            return None;
        }
        let ghost prefix = s@.subrange(start as int, i as int);
        acc = acc * 10 + ((b - 0x30) as u64);
        proof {
            assert(s@.subrange(start as int, i + 1).drop_last() =~= prefix);
            assert(s@.subrange(start as int, i + 1).last() == s@[i as int]);
            assert(forall|k: int|
                0 <= k < i + 1 - start ==> #[trigger] s@.subrange(start as int, i + 1)[k] == s@[
                    start + k
                ]);
        }
        i = i + 1;
        if acc > 0x8000_0000 {
            proof {
                if all_dec_digits(digits) {
                    assert(s@.subrange(start as int, i as int) =~= digits.take(i - start));
                    lemma_dec_digits_prefix_le(digits, i - start);
                    assert(dec_digits_value(digits) > 0x8000_0000);
                }
            }
            return None;
        }
    }
    proof {
        assert(s@.subrange(start as int, n as int) =~= digits);
    }
    if neg {
        if acc == 0 {
            Some(0)
        } else {
            Some(-((acc - 1) as i32) - 1)
        }
    } else {
        if acc <= 0x7fff_ffff {
            Some(acc as i32)
        } else {
            None
        }
    }
}

/// A span clamped to a document of `len` units: start first, then the end
/// clamped below by the start.
pub open spec fn clamp_span(len: int, start: int, end: int) -> (int, int) {
    let s = if start <= len {
        start
    } else {
        len
    };
    let e = if end <= len {
        end
    } else {
        len
    };
    (s, if s <= e {
        e
    } else {
        s
    })
}

} // verus!
