//! The plain-text image format: a magic line `P3`, a `width height` line, a
//! maximum-channel line `255`, then one `r g b` line per pixel in row-major
//! order. This module gives the format an exact mathematical description and
//! a verified decoder and encoder for it.

use vstd::prelude::*;
use crate::image::{Image, Pixel};

verus! {

/// The line separator of the text format.
pub const NEWLINE: u8 = 10;

/// The in-line value separator of the text format.
pub const SPACE: u8 = 32;

/// Index of the first occurrence of `b` in `s`, or `s.len()` when `b` does
/// not occur.
pub open spec fn first_index_of(s: Seq<u8>, b: u8) -> int
    decreases s.len(),
{
    if s.len() == 0 {
        0
    } else if s[0] == b {
        0
    } else {
        1 + first_index_of(s.drop_first(), b)
    }
}

/// `first_index_of` lies in `[0, s.len()]`, points at an occurrence of `b`
/// when one exists, and nothing before it is an occurrence.
pub proof fn lemma_first_index_of(s: Seq<u8>, b: u8)
    ensures
        0 <= first_index_of(s, b) <= s.len(),
        first_index_of(s, b) < s.len() ==> s[first_index_of(s, b)] == b,
        forall|j: int| 0 <= j < first_index_of(s, b) ==> s[j] != b,
    decreases s.len(),
{
    if s.len() == 0 {
    } else if s[0] == b {
    } else {
        lemma_first_index_of(s.drop_first(), b);
        assert forall|j: int| 0 <= j < first_index_of(s, b) implies s[j] != b by {
            if j > 0 {
                assert(s.drop_first()[j - 1] == s[j]);
            }
        }
    }
}

/// `first_index_of` is pinned down by its characterisation: if nothing before
/// `i` is an occurrence, and `i` is one or the end, then it equals `i`.
pub proof fn lemma_first_index_of_is(s: Seq<u8>, b: u8, i: int)
    requires
        0 <= i <= s.len(),
        forall|j: int| 0 <= j < i ==> s[j] != b,
        i < s.len() ==> s[i] == b,
    ensures
        first_index_of(s, b) == i,
    decreases s.len(),
{
    if s.len() == 0 {
    } else if s[0] == b {
        assert(i == 0);
    } else {
        assert(i > 0);
        lemma_first_index_of_is(s.drop_first(), b, i - 1);
    }
}

/// The lines of `s`: maximal runs of bytes separated by `NEWLINE`, with a
/// final unterminated run counting as a line and a trailing separator adding
/// none.
pub open spec fn lines_of(s: Seq<u8>) -> Seq<Seq<u8>>
    decreases s.len(),
{
    if s.len() == 0 {
        Seq::empty()
    } else {
        let i = first_index_of(s, NEWLINE);
        if 0 <= i < s.len() {
            seq![s.take(i)] + lines_of(s.skip(i + 1))
        } else {
            seq![s]
        }
    }
}

/// The tokens of `s` around the separator `sep`: splitting the empty
/// sequence, or one that starts or ends with `sep`, yields empty tokens.
pub open spec fn split_on(s: Seq<u8>, sep: u8) -> Seq<Seq<u8>>
    decreases s.len(),
{
    let i = first_index_of(s, sep);
    if 0 <= i < s.len() {
        seq![s.take(i)] + split_on(s.skip(i + 1), sep)
    } else {
        seq![s]
    }
}

/// The views of a vector of byte vectors, as a sequence of byte sequences.
spec fn views_of(r: Seq<Vec<u8>>) -> Seq<Seq<u8>> {
    r.map_values(|v: Vec<u8>| v@)
}

/// Splitting a sequence that holds no separator yields that one token.
proof fn lemma_split_on_whole(s: Seq<u8>, sep: u8)
    requires
        forall|j: int| 0 <= j < s.len() ==> s[j] != sep,
    ensures
        split_on(s, sep) == seq![s],
{
    lemma_first_index_of_is(s, sep, s.len() as int);
}

/// Splitting off a separator-free prefix peels off exactly that token.
proof fn lemma_split_on_step(a: Seq<u8>, rest: Seq<u8>, sep: u8)
    requires
        forall|j: int| 0 <= j < a.len() ==> a[j] != sep,
    ensures
        split_on(a + seq![sep] + rest, sep) == seq![a] + split_on(rest, sep),
{
    let s = a + seq![sep] + rest;
    assert forall|j: int| 0 <= j < a.len() implies s[j] != sep by {
        assert(s[j] == a[j]);
    }
    assert(s[a.len() as int] == sep);
    lemma_first_index_of_is(s, sep, a.len() as int);
    assert(s.take(a.len() as int) =~= a);
    assert(s.skip(a.len() + 1 as int) =~= rest);
}

/// Splits `s` into its `sep`-separated tokens, exactly as `split_on` does.
fn split_bytes(s: &Vec<u8>, sep: u8) -> (r: Vec<Vec<u8>>)
    ensures
        views_of(r@) == split_on(s@, sep),
{
    let mut out: Vec<Vec<u8>> = Vec::new();
    let mut cur: Vec<u8> = Vec::new();
    let mut start: usize = 0;
    let mut i: usize = 0;
    proof {
        assert(cur@ =~= s@.subrange(0, 0));
        assert(s@.skip(0) =~= s@);
        assert(views_of(out@) + split_on(s@, sep) =~= split_on(s@, sep));
    }
    while i < s.len()
        invariant
            start <= i <= s@.len(),
            cur@ == s@.subrange(start as int, i as int),
            forall|j: int| start <= j < i ==> s@[j] != sep,
            split_on(s@, sep) == views_of(out@) + split_on(s@.skip(start as int), sep),
        decreases s@.len() - i,
    {
        if s[i] == sep {
            proof {
                let tail = s@.skip(start as int);
                assert forall|j: int| 0 <= j < i - start implies tail[j] != sep by {
                    assert(tail[j] == s@[start + j]);
                }
                assert(tail[i - start] == s@[i as int]);
                lemma_first_index_of_is(tail, sep, i - start);
                assert(tail.take(i - start) =~= cur@);
                assert(tail.skip(i - start + 1) =~= s@.skip(i + 1));
                assert(views_of(out@.push(cur)) =~= views_of(out@) + seq![cur@]);
                assert(views_of(out@) + (seq![cur@] + split_on(s@.skip(i + 1), sep))
                    =~= views_of(out@.push(cur)) + split_on(s@.skip(i + 1), sep));
            }
            out.push(cur);
            cur = Vec::new();
            start = i + 1;
            proof {
                assert(cur@ =~= s@.subrange(start as int, start as int));
            }
        } else {
            cur.push(s[i]);
            proof {
                assert(cur@ =~= s@.subrange(start as int, i + 1));
            }
        }
        i = i + 1;
    }
    proof {
        let tail = s@.skip(start as int);
        assert forall|j: int| 0 <= j < tail.len() implies tail[j] != sep by {
            assert(tail[j] == s@[start + j]);
        }
        lemma_split_on_whole(tail, sep);
        assert(tail =~= cur@);
        assert(views_of(out@.push(cur)) =~= views_of(out@) + seq![cur@]);
    }
    out.push(cur);
    proof {
        assert(views_of(out@) =~= split_on(s@, sep));
    }
    out
}

/// Splits `s` into its lines, exactly as `lines_of` does.
fn split_lines(s: &Vec<u8>) -> (r: Vec<Vec<u8>>)
    ensures
        views_of(r@) == lines_of(s@),
{
    let mut out: Vec<Vec<u8>> = Vec::new();
    let mut cur: Vec<u8> = Vec::new();
    let mut start: usize = 0;
    let mut i: usize = 0;
    proof {
        assert(cur@ =~= s@.subrange(0, 0));
        assert(s@.skip(0) =~= s@);
        assert(views_of(out@) + lines_of(s@) =~= lines_of(s@));
    }
    while i < s.len()
        invariant
            start <= i <= s@.len(),
            cur@ == s@.subrange(start as int, i as int),
            forall|j: int| start <= j < i ==> s@[j] != NEWLINE,
            lines_of(s@) == views_of(out@) + lines_of(s@.skip(start as int)),
        decreases s@.len() - i,
    {
        if s[i] == NEWLINE {
            proof {
                let tail = s@.skip(start as int);
                assert forall|j: int| 0 <= j < i - start implies tail[j] != NEWLINE by {
                    assert(tail[j] == s@[start + j]);
                }
                assert(tail[i - start] == s@[i as int]);
                lemma_first_index_of_is(tail, NEWLINE, i - start);
                assert(tail.len() > 0);
                assert(tail.take(i - start) =~= cur@);
                assert(tail.skip(i - start + 1) =~= s@.skip(i + 1));
                assert(views_of(out@.push(cur)) =~= views_of(out@) + seq![cur@]);
                assert(views_of(out@) + (seq![cur@] + lines_of(s@.skip(i + 1)))
                    =~= views_of(out@.push(cur)) + lines_of(s@.skip(i + 1)));
            }
            out.push(cur);
            cur = Vec::new();
            start = i + 1;
            proof {
                assert(cur@ =~= s@.subrange(start as int, start as int));
            }
        } else {
            cur.push(s[i]);
            proof {
                assert(cur@ =~= s@.subrange(start as int, i + 1));
            }
        }
        i = i + 1;
    }
    if start < s.len() {
        proof {
            let tail = s@.skip(start as int);
            assert forall|j: int| 0 <= j < tail.len() implies tail[j] != NEWLINE by {
                assert(tail[j] == s@[start + j]);
            }
            lemma_first_index_of_is(tail, NEWLINE, tail.len() as int);
            assert(tail.len() > 0);
            assert(tail =~= cur@);
            assert(views_of(out@.push(cur)) =~= views_of(out@) + seq![cur@]);
        }
        out.push(cur);
    } else {
        proof {
            assert(s@.skip(start as int).len() == 0);
            assert(lines_of(s@.skip(start as int)) =~= Seq::<Seq<u8>>::empty());
        }
    }
    proof {
        assert(views_of(out@) =~= lines_of(s@));
    }
    out
}

/// Whether `b` is an ASCII decimal digit.
pub open spec fn is_digit(b: u8) -> bool {
    48 <= b <= 57
}

/// Whether `s` is a non-empty run of ASCII decimal digits.
pub open spec fn is_dec(s: Seq<u8>) -> bool {
    s.len() > 0 && forall|i: int| 0 <= i < s.len() ==> is_digit(s[i])
}

/// The value of `s` read as a decimal numeral, most significant digit first.
pub open spec fn dec_val(s: Seq<u8>) -> int
    decreases s.len(),
{
    if s.len() == 0 {
        0
    } else {
        10 * dec_val(s.drop_last()) + (s.last() - 48)
    }
}

/// A digit run has a non-negative value, and no prefix of it exceeds the
/// value of the whole.
proof fn lemma_dec_val_prefix(s: Seq<u8>, n: int)
    requires
        forall|i: int| 0 <= i < s.len() ==> is_digit(s[i]),
        0 <= n <= s.len(),
    ensures
        0 <= dec_val(s.take(n)) <= dec_val(s),
    decreases s.len(),
{
    if s.len() == 0 {
        assert(s.take(n) =~= s);
    } else {
        assert forall|i: int| 0 <= i < s.drop_last().len() implies is_digit(s.drop_last()[i]) by {
            assert(s.drop_last()[i] == s[i]);
        }
        if n == s.len() {
            assert(s.take(n) =~= s);
            lemma_dec_val_prefix(s.drop_last(), s.len() - 1);
            assert(s.drop_last().take(s.len() - 1) =~= s.drop_last());
        } else {
            lemma_dec_val_prefix(s.drop_last(), n);
            assert(s.drop_last().take(n) =~= s.take(n));
            lemma_dec_val_prefix(s.drop_last(), s.drop_last().len() as int);
            assert(s.drop_last().take(s.drop_last().len() as int) =~= s.drop_last());
        }
    }
}

/// Reads `t` as a decimal numeral. Returns the value exactly when `t` is a
/// digit run whose value fits in a `u32`.
fn parse_dec_u32(t: &Vec<u8>) -> (r: Option<u32>)
    ensures
        r is Some <==> is_dec(t@) && dec_val(t@) <= u32::MAX,
        r matches Some(v) ==> v == dec_val(t@),
{
    if t.len() == 0 {
        return None;
    }
    let mut acc: u32 = 0;
    let mut i: usize = 0;
    proof {
        assert(t@.take(0) =~= Seq::<u8>::empty());
    }
    while i < t.len()
        invariant
            i <= t@.len(),
            forall|j: int| 0 <= j < i ==> is_digit(t@[j]),
            0 <= dec_val(t@.take(i as int)) <= u32::MAX,
            acc == dec_val(t@.take(i as int)),
        decreases t@.len() - i,
    {
        let b = t[i];
        if b < 48 || b > 57 {
            return None;
        }
        proof {
            assert(t@.take(i + 1).drop_last() =~= t@.take(i as int));
            assert(t@.take(i + 1).last() == t@[i as int]);
        }
        let wide: u64 = (acc as u64) * 10 + ((b - 48) as u64);
        if wide > u32::MAX as u64 {
            proof {
                assert(dec_val(t@.take(i + 1)) > u32::MAX);
                if is_dec(t@) && dec_val(t@) <= u32::MAX {
                    lemma_dec_val_prefix(t@, i + 1);
                }
            }
            return None;
        }
        acc = wide as u32;
        i = i + 1;
    }
    proof {
        assert(t@.take(t@.len() as int) =~= t@);
    }
    Some(acc)
}

/// Why a document was rejected by the decoder.
#[derive(Clone, Copy, Debug, PartialEq, Eq, Structural)]
pub enum PpmError {
    /// Fewer than the three header lines.
    Truncated,
    /// The first line is not the magic line `P3`.
    BadMagic,
    /// The second line is not two decimal values that fit in `u32`.
    BadDims,
    /// The third line is not the literal `255`.
    BadMaxVal,
    /// Some pixel line is not three decimal values, each at most 255.
    BadPixel,
    /// The number of pixel lines differs from `width * height`.
    PixelCount,
}

/// The magic line: the two bytes of `P3`.
pub open spec fn magic_line() -> Seq<u8> {
    seq![80u8, 51u8]
}

/// The maximum-channel line: the three bytes of `255`.
pub open spec fn maxval_line() -> Seq<u8> {
    seq![50u8, 53u8, 53u8]
}

/// Whether `l` is a dimensions line: two space-separated decimal values,
/// each fitting in a `u32`.
pub open spec fn dims_ok(l: Seq<u8>) -> bool {
    let t = split_on(l, SPACE);
    t.len() == 2 && is_dec(t[0]) && is_dec(t[1]) && dec_val(t[0]) <= u32::MAX && dec_val(t[1])
        <= u32::MAX
}

/// The width read from a dimensions line.
pub open spec fn line_width(l: Seq<u8>) -> int {
    dec_val(split_on(l, SPACE)[0])
}

/// The height read from a dimensions line.
pub open spec fn line_height(l: Seq<u8>) -> int {
    dec_val(split_on(l, SPACE)[1])
}

/// Whether `l` is a pixel line: three space-separated decimal values, each
/// at most 255.
pub open spec fn pixel_ok(l: Seq<u8>) -> bool {
    let t = split_on(l, SPACE);
    t.len() == 3 && is_dec(t[0]) && is_dec(t[1]) && is_dec(t[2]) && dec_val(t[0]) <= 255 && dec_val(
        t[1],
    ) <= 255 && dec_val(t[2]) <= 255
}

/// The pixel read from a pixel line; decoded pixels are fully opaque.
pub open spec fn line_pixel(l: Seq<u8>) -> Pixel {
    let t = split_on(l, SPACE);
    Pixel {
        r: dec_val(t[0]) as u8,
        g: dec_val(t[1]) as u8,
        b: dec_val(t[2]) as u8,
        a: 0xff,
    }
}

/// Whether the three header lines are present and well-formed.
pub open spec fn header_ok(ls: Seq<Seq<u8>>) -> bool {
    ls.len() >= 3 && ls[0] == magic_line() && dims_ok(ls[1]) && ls[2] == maxval_line()
}

/// Whether every line after the header is a well-formed pixel line.
pub open spec fn pixels_ok(ls: Seq<Seq<u8>>) -> bool {
    forall|k: int| 3 <= k < ls.len() ==> pixel_ok(ls[k])
}

/// Whether the number of pixel lines equals `width * height`.
pub open spec fn count_ok(ls: Seq<Seq<u8>>) -> bool {
    ls.len() - 3 == line_width(ls[1]) * line_height(ls[1])
}

/// Whether `s` is a well-formed document of the text format.
pub open spec fn ppm_valid(s: Seq<u8>) -> bool {
    header_ok(lines_of(s)) && pixels_ok(lines_of(s)) && count_ok(lines_of(s))
}

/// The width declared by a well-formed document.
pub open spec fn ppm_width(s: Seq<u8>) -> int {
    line_width(lines_of(s)[1])
}

/// The height declared by a well-formed document.
pub open spec fn ppm_height(s: Seq<u8>) -> int {
    line_height(lines_of(s)[1])
}

/// The pixels of a well-formed document, in row-major order.
pub open spec fn ppm_pixels(s: Seq<u8>) -> Seq<Pixel> {
    Seq::new((lines_of(s).len() - 3) as nat, |k: int| line_pixel(lines_of(s)[k + 3]))
}

/// Whether `l` is exactly the magic line.
fn is_magic_line(l: &Vec<u8>) -> (r: bool)
    ensures
        r <==> l@ == magic_line(),
{
    let r = l.len() == 2 && l[0] == 80 && l[1] == 51;
    proof {
        if r {
            assert(l@ =~= magic_line());
        }
    }
    r
}

/// Whether `l` is exactly the maximum-channel line.
fn is_maxval_line(l: &Vec<u8>) -> (r: bool)
    ensures
        r <==> l@ == maxval_line(),
{
    let r = l.len() == 3 && l[0] == 50 && l[1] == 53 && l[2] == 53;
    proof {
        if r {
            assert(l@ =~= maxval_line());
        }
    }
    r
}

/// Reads a dimensions line. Returns the two values exactly when the line is
/// well-formed.
fn parse_dims(l: &Vec<u8>) -> (r: Option<(u32, u32)>)
    ensures
        r is Some <==> dims_ok(l@),
        r matches Some(d) ==> d.0 == line_width(l@) && d.1 == line_height(l@),
{
    let toks = split_bytes(l, SPACE);
    proof {
        assert(forall|k: int|
            0 <= k < toks@.len() ==> views_of(toks@)[k] == #[trigger] toks@[k]@);
    }
    if toks.len() != 2 {
        return None;
    }
    let w = match parse_dec_u32(&toks[0]) {
        Some(v) => v,
        None => {
            return None;
        },
    };
    let h = match parse_dec_u32(&toks[1]) {
        Some(v) => v,
        None => {
            return None;
        },
    };
    Some((w, h))
}

/// Reads a pixel line. Returns the pixel exactly when the line is
/// well-formed; decoded pixels are fully opaque.
fn parse_pixel_line(l: &Vec<u8>) -> (r: Option<Pixel>)
    ensures
        r is Some <==> pixel_ok(l@),
        r matches Some(p) ==> p == line_pixel(l@),
{
    let toks = split_bytes(l, SPACE);
    proof {
        assert(forall|k: int|
            0 <= k < toks@.len() ==> views_of(toks@)[k] == #[trigger] toks@[k]@);
    }
    if toks.len() != 3 {
        return None;
    }
    let r = match parse_dec_u32(&toks[0]) {
        Some(v) => v,
        None => {
            return None;
        },
    };
    let g = match parse_dec_u32(&toks[1]) {
        Some(v) => v,
        None => {
            return None;
        },
    };
    let b = match parse_dec_u32(&toks[2]) {
        Some(v) => v,
        None => {
            return None;
        },
    };
    if r > 255 || g > 255 || b > 255 {
        return None;
    }
    Some(Pixel { r: r as u8, g: g as u8, b: b as u8, a: 0xff })
}

/// Decodes a document of the text format into an image.
///
/// Succeeds exactly on well-formed documents, and then returns the declared
/// size and the decoded pixels; each rejection names the first header or
/// pixel flaw of the document.
pub fn ppm_parse(s: &Vec<u8>) -> (r: Result<Image, PpmError>)
    ensures
        r is Ok <==> ppm_valid(s@),
        r matches Ok(img) ==> img.wf() && img.width == ppm_width(s@) && img.height == ppm_height(
            s@,
        ) && img.data@ == ppm_pixels(s@),
        r matches Err(e) ==> (e == PpmError::Truncated <==> lines_of(s@).len() < 3),
        r matches Err(e) ==> (e == PpmError::BadMagic <==> lines_of(s@).len() >= 3 && lines_of(
            s@,
        )[0] != magic_line()),
        r matches Err(e) ==> (e == PpmError::BadDims <==> lines_of(s@).len() >= 3 && lines_of(
            s@,
        )[0] == magic_line() && !dims_ok(lines_of(s@)[1])),
        r matches Err(e) ==> (e == PpmError::BadMaxVal <==> lines_of(s@).len() >= 3 && lines_of(
            s@,
        )[0] == magic_line() && dims_ok(lines_of(s@)[1]) && lines_of(s@)[2] != maxval_line()),
        r matches Err(e) ==> (e == PpmError::BadPixel <==> header_ok(lines_of(s@)) && !pixels_ok(
            lines_of(s@),
        )),
        r matches Err(e) ==> (e == PpmError::PixelCount <==> header_ok(lines_of(s@)) && pixels_ok(
            lines_of(s@),
        ) && !count_ok(lines_of(s@))),
{
    let lines = split_lines(s);
    proof {
        assert(forall|k: int|
            0 <= k < lines@.len() ==> views_of(lines@)[k] == #[trigger] lines@[k]@);
    }
    if lines.len() < 3 {
        return Err(PpmError::Truncated);
    }
    if !is_magic_line(&lines[0]) {
        return Err(PpmError::BadMagic);
    }
    let (w, h) = match parse_dims(&lines[1]) {
        Some(d) => d,
        None => {
            return Err(PpmError::BadDims);
        },
    };
    if !is_maxval_line(&lines[2]) {
        return Err(PpmError::BadMaxVal);
    }
    let mut data: Vec<Pixel> = Vec::new();
    let mut k: usize = 3;
    while k < lines.len()
        invariant
            3 <= k <= lines@.len(),
            views_of(lines@) == lines_of(s@),
            forall|j: int| 0 <= j < lines@.len() ==> views_of(lines@)[j] == #[trigger] lines@[j]@,
            lines_of(s@)[0] == magic_line(),
            dims_ok(lines_of(s@)[1]),
            lines_of(s@)[2] == maxval_line(),
            data@.len() == k - 3,
            forall|j: int| 3 <= j < k ==> pixel_ok(lines_of(s@)[j]),
            forall|j: int| 3 <= j < k ==> data@[j - 3] == line_pixel(lines_of(s@)[j]),
        decreases lines@.len() - k,
    {
        match parse_pixel_line(&lines[k]) {
            Some(p) => {
                data.push(p);
            },
            None => {
                return Err(PpmError::BadPixel);
            },
        }
        k = k + 1;
    }
    proof {
        assert((w as u64) * (h as u64) <= u64::MAX) by (nonlinear_arith)
            requires
                w <= u32::MAX,
                h <= u32::MAX,
        ;
    }
    if (data.len() as u64) != (w as u64) * (h as u64) {
        return Err(PpmError::PixelCount);
    }
    proof {
        assert(data@ =~= ppm_pixels(s@));
    }
    Ok(Image { width: w, height: h, data })
}

/// The decimal numeral of `v`, most significant digit first, no sign and no
/// leading zero.
pub open spec fn dec_digits(v: int) -> Seq<u8>
    decreases v,
{
    if v < 10 {
        seq![(48 + v) as u8]
    } else {
        dec_digits(v / 10) + seq![(48 + v % 10) as u8]
    }
}

/// The numeral of a non-negative value is a digit run with that value.
proof fn lemma_dec_digits(v: int)
    requires
        0 <= v,
    ensures
        is_dec(dec_digits(v)),
        dec_val(dec_digits(v)) == v,
    decreases v,
{
    if v < 10 {
        let s = dec_digits(v);
        assert(s.last() == (48 + v) as u8);
        assert((48 + v) as u8 == 48 + v);
        assert(s.drop_last() =~= Seq::<u8>::empty());
        assert(dec_val(s.drop_last()) == 0);
    } else {
        lemma_dec_digits(v / 10);
        let a = dec_digits(v / 10);
        let s = dec_digits(v);
        assert(s.last() == (48 + v % 10) as u8);
        assert((48 + v % 10) as u8 == 48 + v % 10);
        assert(s.drop_last() =~= a);
        assert(dec_val(s) == 10 * (v / 10) + v % 10);
    }
}

/// Appends the decimal numeral of `v` to `out`.
fn push_dec_u32(v: u32, out: &mut Vec<u8>)
    ensures
        final(out)@ == old(out)@ + dec_digits(v as int),
    decreases v,
{
    if v >= 10 {
        push_dec_u32(v / 10, out);
    }
    out.push(48 + (v % 10) as u8);
    proof {
        assert(out@ =~= old(out)@ + dec_digits(v as int));
    }
}

/// The bytes of a dimensions line declaring `w` and `h`.
pub open spec fn dims_line_bytes(w: int, h: int) -> Seq<u8> {
    dec_digits(w) + seq![SPACE] + dec_digits(h)
}

/// The bytes of a pixel line carrying the three colour channels of `p`.
pub open spec fn pixel_line_bytes(p: Pixel) -> Seq<u8> {
    dec_digits(p.r as int) + seq![SPACE] + dec_digits(p.g as int) + seq![SPACE] + dec_digits(
        p.b as int,
    )
}

/// Terminating a separator-free run appends exactly one line.
proof fn lemma_lines_snoc(a: Seq<u8>, l: Seq<u8>)
    requires
        a.len() == 0 || a.last() == NEWLINE,
        forall|j: int| 0 <= j < l.len() ==> l[j] != NEWLINE,
    ensures
        lines_of(a + l + seq![NEWLINE]) == lines_of(a) + seq![l],
    decreases a.len(),
{
    let s = a + l + seq![NEWLINE];
    if a.len() == 0 {
        assert forall|j: int| 0 <= j < l.len() implies s[j] != NEWLINE by {
            assert(s[j] == l[j]);
        }
        assert(s[l.len() as int] == NEWLINE);
        lemma_first_index_of_is(s, NEWLINE, l.len() as int);
        assert(s.take(l.len() as int) =~= l);
        assert(s.skip(l.len() + 1 as int) =~= Seq::<u8>::empty());
        assert(lines_of(s.skip(l.len() + 1 as int)) =~= Seq::<Seq<u8>>::empty());
        assert(lines_of(s) == seq![s.take(l.len() as int)] + lines_of(s.skip(l.len() + 1 as int)));
        assert(lines_of(a) =~= Seq::<Seq<u8>>::empty());
        assert(lines_of(s) =~= lines_of(a) + seq![l]);
    } else {
        lemma_first_index_of(a, NEWLINE);
        let i = first_index_of(a, NEWLINE);
        assert(a[a.len() - 1] == NEWLINE);
        assert(i < a.len());
        assert forall|j: int| 0 <= j < i implies s[j] != NEWLINE by {
            assert(s[j] == a[j]);
        }
        assert(s[i] == a[i]);
        lemma_first_index_of_is(s, NEWLINE, i);
        assert(s.take(i) =~= a.take(i));
        assert(s.skip(i + 1) =~= a.skip(i + 1) + l + seq![NEWLINE]);
        if a.skip(i + 1).len() > 0 {
            assert(a.skip(i + 1).last() == a.last());
        }
        lemma_lines_snoc(a.skip(i + 1), l);
        assert(lines_of(s) == seq![s.take(i)] + lines_of(s.skip(i + 1)));
        assert(lines_of(s.skip(i + 1)) == lines_of(a.skip(i + 1)) + seq![l]);
        assert(lines_of(a) == seq![a.take(i)] + lines_of(a.skip(i + 1)));
        assert(lines_of(s) =~= (seq![a.take(i)] + lines_of(a.skip(i + 1))) + seq![l]);
        assert((seq![a.take(i)] + lines_of(a.skip(i + 1))) + seq![l] == lines_of(a) + seq![l]);
    }
}

/// The encoded pixel lines of `data`, each terminated by a separator.
pub open spec fn pixels_bytes(data: Seq<Pixel>) -> Seq<u8>
    decreases data.len(),
{
    if data.len() == 0 {
        Seq::empty()
    } else {
        pixel_line_bytes(data[0]) + seq![NEWLINE] + pixels_bytes(data.drop_first())
    }
}

/// The canonical document of an image: the three header lines, then one
/// pixel line per pixel, each line terminated by a separator.
pub open spec fn document_bytes(img: Image) -> Seq<u8> {
    magic_line() + seq![NEWLINE] + dims_line_bytes(img.width as int, img.height as int) + seq![
        NEWLINE,
    ] + maxval_line() + seq![NEWLINE] + pixels_bytes(img.data@)
}

/// Appending a pixel appends exactly its terminated line.
proof fn lemma_pixels_bytes_snoc(data: Seq<Pixel>, p: Pixel)
    ensures
        pixels_bytes(data.push(p)) == pixels_bytes(data) + pixel_line_bytes(p) + seq![NEWLINE],
    decreases data.len(),
{
    if data.len() == 0 {
        assert(data.push(p)[0] == p);
        assert(data.push(p).drop_first() =~= Seq::<Pixel>::empty());
        assert(pixels_bytes(data.push(p)) == pixel_line_bytes(p) + seq![NEWLINE] + pixels_bytes(
            data.push(p).drop_first(),
        ));
        assert(pixels_bytes(Seq::<Pixel>::empty()) == Seq::<u8>::empty());
        assert(pixels_bytes(data) == Seq::<u8>::empty());
        assert(pixels_bytes(data.push(p)) =~= pixels_bytes(data) + pixel_line_bytes(p) + seq![
            NEWLINE,
        ]);
    } else {
        assert(data.push(p)[0] == data[0]);
        assert(data.push(p).drop_first() =~= data.drop_first().push(p));
        lemma_pixels_bytes_snoc(data.drop_first(), p);
        assert(pixels_bytes(data.push(p)) == pixel_line_bytes(data[0]) + seq![NEWLINE]
            + pixels_bytes(data.drop_first().push(p)));
        assert(pixels_bytes(data) == pixel_line_bytes(data[0]) + seq![NEWLINE] + pixels_bytes(
            data.drop_first(),
        ));
        assert(pixels_bytes(data.push(p)) =~= pixels_bytes(data) + pixel_line_bytes(p) + seq![
            NEWLINE,
        ]);
    }
}

/// A dimensions line built from numerals is well-formed, separator-free,
/// and declares its two values.
proof fn lemma_dims_line(w: u32, h: u32)
    ensures
        forall|j: int|
            0 <= j < dims_line_bytes(w as int, h as int).len() ==> dims_line_bytes(
                w as int,
                h as int,
            )[j] != NEWLINE,
        dims_ok(dims_line_bytes(w as int, h as int)),
        line_width(dims_line_bytes(w as int, h as int)) == w,
        line_height(dims_line_bytes(w as int, h as int)) == h,
{
    lemma_dec_digits(w as int);
    lemma_dec_digits(h as int);
    let dw = dec_digits(w as int);
    let dh = dec_digits(h as int);
    let l = dims_line_bytes(w as int, h as int);
    assert forall|j: int| 0 <= j < l.len() implies l[j] != NEWLINE by {
        if j < dw.len() {
            assert(l[j] == dw[j]);
        } else if j == dw.len() {
            assert(l[j] == SPACE);
        } else {
            assert(l[j] == dh[j - dw.len() - 1]);
        }
    }
    assert forall|j: int| 0 <= j < dw.len() implies dw[j] != SPACE by {
        assert(is_digit(dw[j]));
    }
    assert forall|j: int| 0 <= j < dh.len() implies dh[j] != SPACE by {
        assert(is_digit(dh[j]));
    }
    lemma_split_on_step(dw, dh, SPACE);
    lemma_split_on_whole(dh, SPACE);
    assert(split_on(l, SPACE) =~= seq![dw, dh]);
}

/// A pixel line built from numerals is well-formed, separator-free, and
/// decodes to the pixel's channels with full opacity.
proof fn lemma_pixel_line(p: Pixel)
    ensures
        forall|j: int|
            0 <= j < pixel_line_bytes(p).len() ==> pixel_line_bytes(p)[j] != NEWLINE,
        pixel_ok(pixel_line_bytes(p)),
        line_pixel(pixel_line_bytes(p)) == (Pixel { r: p.r, g: p.g, b: p.b, a: 0xff }),
{
    lemma_dec_digits(p.r as int);
    lemma_dec_digits(p.g as int);
    lemma_dec_digits(p.b as int);
    let dr = dec_digits(p.r as int);
    let dg = dec_digits(p.g as int);
    let db = dec_digits(p.b as int);
    let l = pixel_line_bytes(p);
    assert forall|j: int| 0 <= j < l.len() implies l[j] != NEWLINE by {
        if j < dr.len() {
            assert(l[j] == dr[j]);
        } else if j == dr.len() {
            assert(l[j] == SPACE);
        } else if j < dr.len() + 1 + dg.len() {
            assert(l[j] == dg[j - dr.len() - 1]);
        } else if j == dr.len() + 1 + dg.len() {
            assert(l[j] == SPACE);
        } else {
            assert(l[j] == db[j - dr.len() - 1 - dg.len() - 1]);
        }
    }
    assert forall|j: int| 0 <= j < dr.len() implies dr[j] != SPACE by {
        assert(is_digit(dr[j]));
    }
    assert forall|j: int| 0 <= j < dg.len() implies dg[j] != SPACE by {
        assert(is_digit(dg[j]));
    }
    assert forall|j: int| 0 <= j < db.len() implies db[j] != SPACE by {
        assert(is_digit(db[j]));
    }
    assert(l =~= dr + seq![SPACE] + (dg + seq![SPACE] + db));
    lemma_split_on_step(dr, dg + seq![SPACE] + db, SPACE);
    lemma_split_on_step(dg, db, SPACE);
    lemma_split_on_whole(db, SPACE);
    assert(split_on(l, SPACE) =~= seq![dr, dg, db]);
}

/// Encodes an image as a document of the text format.
///
/// The result is exactly the canonical document of the image: a well-formed
/// document that declares the image's size and decodes back to its pixels,
/// every one fully opaque.
pub fn ppm_encode(img: &Image) -> (out: Vec<u8>)
    requires
        img.wf(),
    ensures
        out@ == document_bytes(*img),
        ppm_valid(out@),
        ppm_width(out@) == img.width,
        ppm_height(out@) == img.height,
        ppm_pixels(out@).len() == img.data@.len(),
        forall|k: int|
            0 <= k < img.data@.len() ==> ppm_pixels(out@)[k] == (Pixel {
                r: img.data@[k].r,
                g: img.data@[k].g,
                b: img.data@[k].b,
                a: 0xff,
            }),
{
    let ghost dims = dims_line_bytes(img.width as int, img.height as int);
    let mut out: Vec<u8> = Vec::new();
    out.push(80);
    out.push(51);
    out.push(NEWLINE);
    proof {
        assert(magic_line()[0] == 80 && magic_line()[1] == 51);
        lemma_lines_snoc(Seq::empty(), magic_line());
        assert(out@ =~= Seq::<u8>::empty() + magic_line() + seq![NEWLINE]);
        assert(lines_of(out@) =~= Seq::<Seq<u8>>::empty() + seq![magic_line()]);
    }
    let ghost after_magic = out@;
    push_dec_u32(img.width, &mut out);
    out.push(SPACE);
    push_dec_u32(img.height, &mut out);
    out.push(NEWLINE);
    proof {
        lemma_dims_line(img.width, img.height);
        lemma_lines_snoc(after_magic, dims);
        assert(out@ =~= after_magic + dims + seq![NEWLINE]);
        assert(lines_of(out@) =~= seq![magic_line(), dims]);
    }
    let ghost after_dims = out@;
    out.push(50);
    out.push(53);
    out.push(53);
    out.push(NEWLINE);
    proof {
        assert(maxval_line()[0] == 50 && maxval_line()[1] == 53 && maxval_line()[2] == 53);
        lemma_lines_snoc(after_dims, maxval_line());
        assert(out@ =~= after_dims + maxval_line() + seq![NEWLINE]);
        assert(lines_of(out@) =~= seq![magic_line(), dims, maxval_line()]);
    }
    let ghost header = out@;
    proof {
        assert(header =~= magic_line() + seq![NEWLINE] + dims + seq![NEWLINE] + maxval_line()
            + seq![NEWLINE]);
        assert(img.data@.take(0) =~= Seq::<Pixel>::empty());
        assert(out@ =~= header + pixels_bytes(img.data@.take(0)));
    }
    let mut k: usize = 0;
    while k < img.data.len()
        invariant
            k <= img.data@.len(),
            dims == dims_line_bytes(img.width as int, img.height as int),
            header == magic_line() + seq![NEWLINE] + dims + seq![NEWLINE] + maxval_line() + seq![
                NEWLINE,
            ],
            out@ == header + pixels_bytes(img.data@.take(k as int)),
            out@.len() > 0 && out@.last() == NEWLINE,
            lines_of(out@).len() == 3 + k,
            lines_of(out@)[0] == magic_line(),
            lines_of(out@)[1] == dims,
            lines_of(out@)[2] == maxval_line(),
            forall|j: int| 0 <= j < k ==> lines_of(out@)[3 + j] == pixel_line_bytes(img.data@[j]),
        decreases img.data@.len() - k,
    {
        let p = img.data[k];
        let ghost before = out@;
        push_dec_u32(p.r as u32, &mut out);
        out.push(SPACE);
        push_dec_u32(p.g as u32, &mut out);
        out.push(SPACE);
        push_dec_u32(p.b as u32, &mut out);
        out.push(NEWLINE);
        proof {
            lemma_pixel_line(p);
            assert(out@ =~= before + pixel_line_bytes(p) + seq![NEWLINE]);
            lemma_lines_snoc(before, pixel_line_bytes(p));
            assert(img.data@.take(k + 1) =~= img.data@.take(k as int).push(p));
            lemma_pixels_bytes_snoc(img.data@.take(k as int), p);
            assert(out@ =~= header + pixels_bytes(img.data@.take(k + 1)));
        }
        k = k + 1;
    }
    proof {
        assert(img.data@.take(img.data@.len() as int) =~= img.data@);
        assert(out@ =~= document_bytes(*img));
        let ls = lines_of(out@);
        lemma_dims_line(img.width, img.height);
        assert forall|j: int| 3 <= j < ls.len() implies pixel_ok(ls[j]) by {
            lemma_pixel_line(img.data@[j - 3]);
        }
        assert forall|k0: int| 0 <= k0 < img.data@.len() implies ppm_pixels(out@)[k0] == (Pixel {
            r: img.data@[k0].r,
            g: img.data@[k0].g,
            b: img.data@[k0].b,
            a: 0xff,
        }) by {
            lemma_pixel_line(img.data@[k0]);
        }
    }
    out
}

} // verus!
