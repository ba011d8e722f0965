//! Radiance RGBE (`.hdr`) decoding to RGBE texels.
//!
//! The header is a sequence of `\n`-terminated lines. Lines starting with
//! `#?` are comments, empty lines are skipped until a resolution has been
//! seen, and any other line must be UTF-8 and is split on whitespace; a
//! token `Y`/`y` or `X`/`x` (optionally signed) takes the next token as
//! the height or width. The header ends once both are non-zero or the
//! input is exhausted. Each scanline is then either `width` plain RGBE
//! quadruples or, when it starts with `0x02` and the width is in
//! `8..=32767`, a five-byte marker followed by four run-length encoded
//! channels. Conversion of RGBE to linear floating-point colour is left to
//! the caller.

use vstd::prelude::*;

verus! {

/// Why an RGBE file was rejected.
#[derive(Copy, Clone, Debug, PartialEq, Eq, Structural)]
pub enum RgbeError {
    /// A header line has no terminating newline.
    UnterminatedHeader,
    /// A resolution line is not valid UTF-8.
    NonUtf8ResolutionLine,
    /// A `Y` axis token is the last token of its line.
    MissingYValue,
    /// The value after a `Y` axis token is not a `u32`.
    BadYValue,
    /// An `X` axis token is the last token of its line.
    MissingXValue,
    /// The value after an `X` axis token is not a `u32`.
    BadXValue,
    /// The header does not give both a width and a height.
    MissingResolution,
    /// The header gives a width or height of zero.
    ZeroResolution,
    /// The image has more than `u32::MAX / 3` pixels.
    TooLarge,
    /// Fewer than four bytes remain at the start of a scanline.
    EofAtScanlineStart,
    /// A plain scanline is cut short.
    EofInPixelData,
    /// A run-length scanline marker is cut short.
    EofInRleHeader,
    /// A run-length channel is cut short.
    EofInRleStream,
    /// A literal run of a run-length channel overflows the scanline or the
    /// input.
    RleNonRunOutOfRange,
}

/// The message describing an RGBE error.
pub open spec fn rgbe_error_message(e: RgbeError) -> Seq<char> {
    match e {
        RgbeError::UnterminatedHeader => "rgbe: unterminated header"@,
        RgbeError::NonUtf8ResolutionLine => "rgbe: non-utf8 resolution line"@,
        RgbeError::MissingYValue => "rgbe: Y axis missing value"@,
        RgbeError::BadYValue => "rgbe: bad Y res"@,
        RgbeError::MissingXValue => "rgbe: X axis missing value"@,
        RgbeError::BadXValue => "rgbe: bad X res"@,
        RgbeError::MissingResolution => "rgbe: missing resolution in header"@,
        RgbeError::ZeroResolution => "rgbe: zero resolution in header"@,
        RgbeError::TooLarge => "rgbe: image too large"@,
        RgbeError::EofAtScanlineStart => "rgbe: unexpected EOF at scanline start"@,
        RgbeError::EofInPixelData => "rgbe: unexpected EOF in pixel data"@,
        RgbeError::EofInRleHeader => "rgbe: unexpected EOF in RLE scanline header"@,
        RgbeError::EofInRleStream => "rgbe: unexpected EOF in RLE stream"@,
        RgbeError::RleNonRunOutOfRange => "rgbe: RLE non-run out of range"@,
    }
}

impl RgbeError {
    /// A human-readable description of the error.
    pub fn message(&self) -> (r: &'static str)
        ensures
            r@ == rgbe_error_message(*self),
    {
        match self {
            RgbeError::UnterminatedHeader => "rgbe: unterminated header",
            RgbeError::NonUtf8ResolutionLine => "rgbe: non-utf8 resolution line",
            RgbeError::MissingYValue => "rgbe: Y axis missing value",
            RgbeError::BadYValue => "rgbe: bad Y res",
            RgbeError::MissingXValue => "rgbe: X axis missing value",
            RgbeError::BadXValue => "rgbe: bad X res",
            RgbeError::MissingResolution => "rgbe: missing resolution in header",
            RgbeError::ZeroResolution => "rgbe: zero resolution in header",
            RgbeError::TooLarge => "rgbe: image too large",
            RgbeError::EofAtScanlineStart => "rgbe: unexpected EOF at scanline start",
            RgbeError::EofInPixelData => "rgbe: unexpected EOF in pixel data",
            RgbeError::EofInRleHeader => "rgbe: unexpected EOF in RLE scanline header",
            RgbeError::EofInRleStream => "rgbe: unexpected EOF in RLE stream",
            RgbeError::RleNonRunOutOfRange => "rgbe: RLE non-run out of range",
        }
    }
}

/// The class of an RGBE error: the input is malformed, or it is well
/// formed but describes an image that cannot be decoded.
#[derive(Copy, Clone, Debug, PartialEq, Eq, Structural)]
pub enum RgbeErrorKind {
    /// Malformed header or pixel data.
    Parse,
    /// A zero or too large resolution.
    InvalidArgument,
}

/// The class of each RGBE error.
pub open spec fn rgbe_error_kind(e: RgbeError) -> RgbeErrorKind {
    match e {
        RgbeError::ZeroResolution => RgbeErrorKind::InvalidArgument,
        RgbeError::TooLarge => RgbeErrorKind::InvalidArgument,
        _ => RgbeErrorKind::Parse,
    }
}

impl RgbeError {
    /// The class of the error.
    pub fn kind(&self) -> (r: RgbeErrorKind)
        ensures
            r == rgbe_error_kind(*self),
    {
        match self {
            RgbeError::ZeroResolution => RgbeErrorKind::InvalidArgument,
            RgbeError::TooLarge => RgbeErrorKind::InvalidArgument,
            _ => RgbeErrorKind::Parse,
        }
    }
}

/// A decoded image: `texels[y * width + x]` holds the `[r, g, b, e]` bytes
/// of pixel `(x, y)`.
#[derive(Clone, Debug, PartialEq, Eq)]
pub struct RgbeImage {
    /// Width in pixels.
    pub width: u32,
    /// Height in pixels.
    pub height: u32,
    /// Row-major RGBE texels.
    pub texels: Vec<[u8; 4]>,
}

// ---------------------------------------------------------------------------
// Tokens
// ---------------------------------------------------------------------------

/// Byte length of the whitespace character starting at `i` of the UTF-8
/// text `l`, or 0 when none starts there. Whitespace is the Unicode
/// `White_Space` set: ASCII tab, line feed, vertical tab, form feed,
/// carriage return and space, and U+0085, U+00A0, U+1680, U+2000..U+200A,
/// U+2028, U+2029, U+202F, U+205F, U+3000.
pub open spec fn ws_len(l: Seq<u8>, i: int) -> nat {
    let b0 = l[i];
    if b0 == 0x20 || (0x09 <= b0 && b0 <= 0x0d) {
        1
    } else if b0 == 0xC2 && i + 1 < l.len() && (l[i + 1] == 0x85 || l[i + 1] == 0xA0) {
        2
    } else if b0 == 0xE1 && i + 2 < l.len() && l[i + 1] == 0x9A && l[i + 2] == 0x80 {
        3
    } else if b0 == 0xE2 && i + 2 < l.len() && ((l[i + 1] == 0x80 && ((0x80 <= l[i + 2] && l[i
        + 2] <= 0x8A) || l[i + 2] == 0xA8 || l[i + 2] == 0xA9 || l[i + 2] == 0xAF)) || (l[i + 1]
        == 0x81 && l[i + 2] == 0x9F)) {
        3
    } else if b0 == 0xE3 && i + 2 < l.len() && l[i + 1] == 0x80 && l[i + 2] == 0x80 {
        3
    } else {
        0
    }
}

/// `acc` with the pending token `cur` appended when it is not empty.
pub open spec fn flush(acc: Seq<Seq<u8>>, cur: Seq<u8>) -> Seq<Seq<u8>> {
    if cur.len() > 0 {
        acc.push(cur)
    } else {
        acc
    }
}

/// Splits `l` from byte `i` on whitespace, with the pending token `cur`
/// and the tokens `acc` found so far.
pub open spec fn split_ws(l: Seq<u8>, i: nat, cur: Seq<u8>, acc: Seq<Seq<u8>>) -> Seq<Seq<u8>>
    decreases l.len() - i,
{
    if i >= l.len() {
        flush(acc, cur)
    } else {
        let k = ws_len(l, i as int);
        if k > 0 {
            split_ws(l, i + k, Seq::empty(), flush(acc, cur))
        } else {
            split_ws(l, i + 1, cur.push(l[i as int]), acc)
        }
    }
}

/// The whitespace-separated tokens of a line.
pub open spec fn tokens(l: Seq<u8>) -> Seq<Seq<u8>> {
    split_ws(l, 0, Seq::empty(), Seq::empty())
}

/// The value of a string of ASCII digits.
pub open spec fn digits_value(d: Seq<u8>) -> nat
    decreases d.len(),
{
    if d.len() == 0 {
        0
    } else {
        digits_value(d.drop_last()) * 10 + (d.last() - 48) as nat
    }
}

/// Every byte is an ASCII digit.
pub open spec fn all_digits(d: Seq<u8>) -> bool {
    forall|i: int| 0 <= i < d.len() ==> 48 <= #[trigger] d[i] <= 57
}

/// The `u32` that `u32::from_str` reads from a token: an optional `+`
/// followed by at least one ASCII digit, with a value that fits.
pub open spec fn parse_u32(t: Seq<u8>) -> Option<u32> {
    let d = if t.len() > 0 && t[0] == 43 {
        t.drop_first()
    } else {
        t
    };
    if d.len() == 0 || !all_digits(d) || digits_value(d) > u32::MAX {
        None
    } else {
        Some(digits_value(d) as u32)
    }
}

/// A token without one leading `+` or `-`.
pub open spec fn unsigned_part(t: Seq<u8>) -> Seq<u8> {
    if t.len() > 0 && (t[0] == 43 || t[0] == 45) {
        t.drop_first()
    } else {
        t
    }
}

/// The token names the Y axis.
pub open spec fn is_y_axis(t: Seq<u8>) -> bool {
    let a = unsigned_part(t);
    a.len() == 1 && (a[0] == 89 || a[0] == 121)
}

/// The token names the X axis.
pub open spec fn is_x_axis(t: Seq<u8>) -> bool {
    let a = unsigned_part(t);
    a.len() == 1 && (a[0] == 88 || a[0] == 120)
}

/// The height and width a resolution line sets, scanning tokens from
/// token `i` on; the last value given for an axis wins.
pub open spec fn scan_tokens(ts: Seq<Seq<u8>>, i: nat, y: Option<u32>, x: Option<u32>) -> Result<(Option<u32>, Option<u32>), RgbeError>
    decreases ts.len() - i,
{
    if i >= ts.len() {
        Ok((y, x))
    } else if is_y_axis(ts[i as int]) {
        if i + 1 >= ts.len() {
            Err(RgbeError::MissingYValue)
        } else {
            match parse_u32(ts[i + 1 as int]) {
                None => Err(RgbeError::BadYValue),
                Some(v) => scan_tokens(ts, i + 2, Some(v), x),
            }
        }
    } else if is_x_axis(ts[i as int]) {
        if i + 1 >= ts.len() {
            Err(RgbeError::MissingXValue)
        } else {
            match parse_u32(ts[i + 1 as int]) {
                None => Err(RgbeError::BadXValue),
                Some(v) => scan_tokens(ts, i + 2, y, Some(v)),
            }
        }
    } else {
        scan_tokens(ts, i + 1, y, x)
    }
}

// ---------------------------------------------------------------------------
// Header
// ---------------------------------------------------------------------------

/// Position of the first newline at or after `idx`.
pub open spec fn newline_at(b: Seq<u8>, idx: nat) -> Option<nat>
    decreases b.len() - idx,
{
    if idx >= b.len() {
        None
    } else if b[idx as int] == 10 {
        Some(idx)
    } else {
        newline_at(b, idx + 1)
    }
}

/// A dimension given in the header and not zero.
pub open spec fn dim_set(d: Option<u32>) -> bool {
    d matches Some(v) && v != 0
}

/// Reads header lines from byte `idx` with the width and height given so
/// far (`None` while not given; a later value replaces an earlier one);
/// yields the offset of the first scanline byte and the final width and
/// height.
pub open spec fn header_from(b: Seq<u8>, idx: nat, w: Option<u32>, h: Option<u32>) -> Result<(nat, Option<u32>, Option<u32>), RgbeError>
    decreases b.len() - idx,
{
    if idx >= b.len() {
        Ok((idx, w, h))
    } else {
        match newline_at(b, idx) {
            None => Err(RgbeError::UnterminatedHeader),
            Some(p) => {
                let line = b.subrange(idx as int, p as int);
                let next = p + 1;
                if p < idx || p >= b.len() {
                    Err(RgbeError::UnterminatedHeader)
                } else if line.len() == 0 {
                    if dim_set(w) && dim_set(h) {
                        Ok((next, w, h))
                    } else {
                        header_from(b, next, w, h)
                    }
                } else if line.len() >= 2 && line[0] == 35 && line[1] == 63 {
                    header_from(b, next, w, h)
                } else if !vstd::utf8::valid_utf8(line) {
                    Err(RgbeError::NonUtf8ResolutionLine)
                } else {
                    match scan_tokens(tokens(line), 0, None, None) {
                        Err(e) => Err(e),
                        Ok((ly, lx)) => {
                            let h2 = match ly {
                                Some(v) => Some(v),
                                None => h,
                            };
                            let w2 = match lx {
                                Some(v) => Some(v),
                                None => w,
                            };
                            if dim_set(h2) && dim_set(w2) {
                                Ok((next, w2, h2))
                            } else {
                                header_from(b, next, w2, h2)
                            }
                        },
                    }
                }
            },
        }
    }
}

/// Whether `bytes` is valid UTF-8. Calls `std::str::from_utf8`; trusted
/// (not proved) to succeed exactly when the bytes are well-formed UTF-8 as
/// vstd's `valid_utf8` defines it.
#[verifier::external_body]
fn utf8_valid(bytes: &[u8]) -> (r: bool)
    ensures
        r == vstd::utf8::valid_utf8(bytes@),
{
    std::str::from_utf8(bytes).is_ok()
}

/// The views of a list of tokens.
pub open spec fn token_views(ts: Seq<Vec<u8>>) -> Seq<Seq<u8>> {
    ts.map_values(|t: Vec<u8>| t@)
}

/// Length of the whitespace character at `i`, as [`ws_len`].
fn whitespace_len(l: &[u8], i: usize) -> (r: usize)
    requires
        i < l@.len(),
    ensures
        r == ws_len(l@, i as int),
{
    let b0 = l[i];
    let n = l.len();
    if b0 == 0x20 || (0x09 <= b0 && b0 <= 0x0d) {
        1
    } else if b0 == 0xC2 && n - i > 1 && (l[i + 1] == 0x85 || l[i + 1] == 0xA0) {
        2
    } else if b0 == 0xE1 && n - i > 2 && l[i + 1] == 0x9A && l[i + 2] == 0x80 {
        3
    } else if b0 == 0xE2 && n - i > 2 && ((l[i + 1] == 0x80 && ((0x80 <= l[i + 2] && l[i + 2]
        <= 0x8A) || l[i + 2] == 0xA8 || l[i + 2] == 0xA9 || l[i + 2] == 0xAF)) || (l[i + 1]
        == 0x81 && l[i + 2] == 0x9F)) {
        3
    } else if b0 == 0xE3 && n - i > 2 && l[i + 1] == 0x80 && l[i + 2] == 0x80 {
        3
    } else {
        0
    }
}

/// Splits a line on whitespace.
fn split_tokens(l: &[u8]) -> (r: Vec<Vec<u8>>)
    ensures
        token_views(r@) == tokens(l@),
{
    let mut acc: Vec<Vec<u8>> = Vec::new();
    let mut cur: Vec<u8> = Vec::new();
    let mut i: usize = 0;
    assert(token_views(acc@) =~= Seq::<Seq<u8>>::empty());
    assert(cur@ =~= Seq::<u8>::empty());
    while i < l.len()
        invariant
            i <= l@.len(),
            split_ws(l@, i as nat, cur@, token_views(acc@)) == tokens(l@),
        decreases l@.len() - i,
    {
        let k = whitespace_len(l, i);
        if k > 0 {
            if cur.len() > 0 {
                let ghost prev = acc@;
                let done = cur;
                acc.push(done);
                assert(token_views(acc@) =~= token_views(prev).push(done@));
                cur = Vec::new();
            } else {
                cur = Vec::new();
            }
            assert(cur@ =~= Seq::<u8>::empty());
            i = i + k;
        } else {
            cur.push(l[i]);
            i = i + 1;
        }
    }
    if cur.len() > 0 {
        let ghost prev = acc@;
        let done = cur;
        acc.push(done);
        assert(token_views(acc@) =~= token_views(prev).push(done@));
    }
    acc
}

/// Reads a `u32` from a token, as [`parse_u32`].
fn parse_token_u32(t: &Vec<u8>) -> (r: Option<u32>)
    ensures
        r == parse_u32(t@),
{
    let start: usize = if t.len() > 0 && t[0] == 43 { 1 } else { 0 };
    let ghost d = if t@.len() > 0 && t@[0] == 43 {
        t@.drop_first()
    } else {
        t@
    };
    assert(d =~= t@.subrange(start as int, t@.len() as int));
    if start >= t.len() {
        return None;
    }
    let mut acc: u64 = 0;
    let mut i: usize = start;
    while i < t.len()
        invariant
            start <= i <= t@.len(),
            start < t@.len(),
            d == t@.subrange(start as int, t@.len() as int),
            d == (if t@.len() > 0 && t@[0] == 43 {
                t@.drop_first()
            } else {
                t@
            }),
            all_digits(t@.subrange(start as int, i as int)),
            acc == digits_value(t@.subrange(start as int, i as int)),
            acc <= u32::MAX,
        decreases t@.len() - i,
    {
        let c = t[i];
        if c < 48 || c > 57 {
            assert(d[i - start] == c);
            assert(!all_digits(d));
            return None;
        }
        proof {
            let p = t@.subrange(start as int, i + 1);
            assert(p.drop_last() =~= t@.subrange(start as int, i as int));
            assert(p.last() == c);
        }
        acc = acc * 10 + (c - 48) as u64;
        if acc > 0xFFFF_FFFF {
            proof {
                if all_digits(d) {
                    lemma_digits_value_prefix_le(d, (i + 1 - start) as nat);
                    assert(d.take((i + 1 - start) as int) =~= t@.subrange(start as int, i + 1));
                }
            }
            return None;
        }
        i = i + 1;
    }
    assert(t@.subrange(start as int, i as int) =~= d);
    Some(acc as u32)
}

/// A digit string's value is at least that of any prefix.
pub proof fn lemma_digits_value_prefix_le(d: Seq<u8>, k: nat)
    requires
        k <= d.len(),
        all_digits(d),
    ensures
        digits_value(d.take(k as int)) <= digits_value(d),
    decreases d.len() - k,
{
    if k < d.len() {
        lemma_digits_value_prefix_le(d, k + 1);
        let p = d.take(k + 1 as int);
        assert(p.drop_last() =~= d.take(k as int));
        assert(48 <= d[k as int]);
    } else {
        assert(d.take(k as int) =~= d);
    }
}

/// The height and width a resolution line sets, as [`scan_tokens`].
fn scan_line(ts: &Vec<Vec<u8>>) -> (r: Result<(Option<u32>, Option<u32>), RgbeError>)
    ensures
        r == scan_tokens(token_views(ts@), 0, None, None),
{
    let ghost tv = token_views(ts@);
    let mut y: Option<u32> = None;
    let mut x: Option<u32> = None;
    let mut i: usize = 0;
    while i < ts.len()
        invariant
            tv == token_views(ts@),
            i <= ts@.len() + 1,
            scan_tokens(tv, 0, None, None) == scan_tokens(tv, i as nat, y, x),
        decreases ts@.len() + 1 - i,
    {
        let t = &ts[i];
        assert(tv[i as int] == t@);
        let sign: usize = if t.len() > 0 && (t[0] == 43 || t[0] == 45) { 1 } else { 0 };
        let is_axis = t.len() == sign + 1;
        assert(is_axis ==> unsigned_part(t@) =~= seq![t@[sign as int]]);
        assert(!is_axis ==> unsigned_part(t@).len() != 1);
        let is_y = is_axis && (t[sign] == 89 || t[sign] == 121);
        let is_x = is_axis && (t[sign] == 88 || t[sign] == 120);
        if is_y {
            if i + 1 >= ts.len() {
                return Err(RgbeError::MissingYValue);
            }
            assert(tv[i + 1] == ts@[i + 1]@);
            match parse_token_u32(&ts[i + 1]) {
                None => {
                    return Err(RgbeError::BadYValue);
                },
                Some(v) => {
                    y = Some(v);
                },
            }
            i = i + 2;
        } else if is_x {
            if i + 1 >= ts.len() {
                return Err(RgbeError::MissingXValue);
            }
            assert(tv[i + 1] == ts@[i + 1]@);
            match parse_token_u32(&ts[i + 1]) {
                None => {
                    return Err(RgbeError::BadXValue);
                },
                Some(v) => {
                    x = Some(v);
                },
            }
            i = i + 2;
        } else {
            i = i + 1;
        }
    }
    Ok((y, x))
}

/// The newline at or after `idx` is at or after `idx`.
pub proof fn lemma_newline_at_ge(b: Seq<u8>, idx: nat)
    ensures
        newline_at(b, idx) matches Some(p) ==> idx <= p < b.len() && b[p as int] == 10,
    decreases b.len() - idx,
{
    if idx < b.len() && b[idx as int] != 10 {
        lemma_newline_at_ge(b, idx + 1);
    }
}

/// Exec form of [`dim_set`].
fn is_set(d: Option<u32>) -> (r: bool)
    ensures
        r == dim_set(d),
{
    match d {
        Some(v) => v != 0,
        None => false,
    }
}

/// Reads the header, as [`header_from`] from the start of the input.
fn parse_header(b: &[u8]) -> (r: Result<(usize, Option<u32>, Option<u32>), RgbeError>)
    ensures
        match header_from(b@, 0, None, None) {
            Ok((idx, w, h)) => r matches Ok((i2, w2, h2)) && i2 == idx && w2 == w && h2 == h,
            Err(e) => r == Err::<(usize, Option<u32>, Option<u32>), RgbeError>(e),
        },
{
    let mut idx: usize = 0;
    let mut width: Option<u32> = None;
    let mut height: Option<u32> = None;
    while idx < b.len()
        invariant
            idx <= b@.len(),
            header_from(b@, 0, None, None) == header_from(b@, idx as nat, width, height),
        decreases b@.len() - idx,
    {
        let mut p: usize = idx;
        while p < b.len() && b[p] != 10
            invariant
                idx <= p <= b@.len(),
                newline_at(b@, idx as nat) == newline_at(b@, p as nat),
            decreases b@.len() - p,
        {
            p = p + 1;
        }
        if p >= b.len() {
            return Err(RgbeError::UnterminatedHeader);
        }
        let line = &b[idx..p];
        assert(line@ =~= b@.subrange(idx as int, p as int));
        let next = p + 1;
        if line.len() == 0 {
            if is_set(width) && is_set(height) {
                return Ok((next, width, height));
            }
            idx = next;
            continue;
        }
        if line.len() >= 2 && line[0] == 35 && line[1] == 63 {
            idx = next;
            continue;
        }
        if !utf8_valid(line) {
            return Err(RgbeError::NonUtf8ResolutionLine);
        }
        let ts = split_tokens(line);
        match scan_line(&ts) {
            Err(e) => {
                return Err(e);
            },
            Ok((ly, lx)) => {
                if let Some(v) = ly {
                    height = Some(v);
                }
                if let Some(v) = lx {
                    width = Some(v);
                }
            },
        }
        idx = next;
        if is_set(height) && is_set(width) {
            return Ok((idx, width, height));
        }
    }
    Ok((idx, width, height))
}

// ---------------------------------------------------------------------------
// Scanlines
// ---------------------------------------------------------------------------

/// Decodes one run-length channel from byte `idx`, extending `acc` until
/// it holds at least `w` bytes. A count byte above 128 introduces
/// `count - 128` literal bytes; any other count repeats the next byte
/// `count` times.
pub open spec fn rle_channel(b: Seq<u8>, idx: nat, w: nat, acc: Seq<u8>) -> Result<(Seq<u8>, nat), RgbeError>
    decreases b.len() - idx,
{
    if acc.len() >= w {
        Ok((acc, idx))
    } else if idx + 2 > b.len() {
        Err(RgbeError::EofInRleStream)
    } else {
        let count = b[idx as int];
        if count > 128 {
            let n = (count - 128) as nat;
            if acc.len() + n > w || idx + 1 + n > b.len() {
                Err(RgbeError::RleNonRunOutOfRange)
            } else {
                rle_channel(b, idx + 1 + n, w, acc + b.subrange(idx + 1 as int, idx + 1 + n as int))
            }
        } else {
            rle_channel(b, idx + 2, w, acc + Seq::new(count as nat, |k: int| b[idx + 1 as int]))
        }
    }
}

/// The scanline starting at byte `idx` is run-length encoded.
pub open spec fn is_rle_scanline(b: Seq<u8>, idx: nat, w: nat) -> bool {
    b[idx as int] == 2 && 8 <= w <= 32767
}

/// Decodes one scanline of `w` pixels from byte `idx`; yields its texels
/// and the offset of the next scanline.
pub open spec fn scanline(b: Seq<u8>, idx: nat, w: nat) -> Result<(Seq<Seq<u8>>, nat), RgbeError> {
    if idx + 4 > b.len() {
        Err(RgbeError::EofAtScanlineStart)
    } else if !is_rle_scanline(b, idx, w) {
        if idx + 4 * w > b.len() {
            Err(RgbeError::EofInPixelData)
        } else {
            Ok((Seq::new(w, |x: int| b.subrange(idx + 4 * x, idx + 4 * x + 4)), idx + 4 * w))
        }
    } else if idx + 5 > b.len() {
        Err(RgbeError::EofInRleHeader)
    } else {
        match rle_channel(b, idx + 5, w, Seq::empty()) {
            Err(e) => Err(e),
            Ok((c0, i1)) => match rle_channel(b, i1, w, Seq::empty()) {
                Err(e) => Err(e),
                Ok((c1, i2)) => match rle_channel(b, i2, w, Seq::empty()) {
                    Err(e) => Err(e),
                    Ok((c2, i3)) => match rle_channel(b, i3, w, Seq::empty()) {
                        Err(e) => Err(e),
                        Ok((c3, i4)) => Ok(
                            (Seq::new(w, |x: int| seq![c0[x], c1[x], c2[x], c3[x]]), i4),
                        ),
                    },
                },
            },
        }
    }
}

/// `prefix` followed by the texels of a successful decode.
pub open spec fn after(prefix: Seq<Seq<u8>>, r: Result<Seq<Seq<u8>>, RgbeError>) -> Result<Seq<Seq<u8>>, RgbeError> {
    match r {
        Ok(rest) => Ok(prefix + rest),
        Err(e) => Err(e),
    }
}

/// Decodes `rows` scanlines of `w` pixels from byte `idx`.
pub open spec fn scanlines(b: Seq<u8>, idx: nat, w: nat, rows: nat) -> Result<Seq<Seq<u8>>, RgbeError>
    decreases rows,
{
    if rows == 0 {
        Ok(Seq::empty())
    } else {
        match scanline(b, idx, w) {
            Err(e) => Err(e),
            Ok((t, next)) => after(t, scanlines(b, next, w, (rows - 1) as nat)),
        }
    }
}

/// What decoding the file `b` yields: width, height and the row-major
/// RGBE texels, or the first problem met.
pub open spec fn rgbe_decode(b: Seq<u8>) -> Result<(u32, u32, Seq<Seq<u8>>), RgbeError> {
    match header_from(b, 0, None, None) {
        Err(e) => Err(e),
        Ok((idx, wo, ho)) => if wo == Some(0u32) || ho == Some(0u32) {
            Err(RgbeError::ZeroResolution)
        } else if wo is None || ho is None {
            Err(RgbeError::MissingResolution)
        } else if wo->0 * ho->0 > 0xFFFF_FFFFu32 / 3 {
            Err(RgbeError::TooLarge)
        } else {
            match scanlines(b, idx, wo->0 as nat, ho->0 as nat) {
                Err(e) => Err(e),
                Ok(t) => Ok((wo->0, ho->0, t)),
            }
        },
    }
}

/// The views of a list of texels.
pub open spec fn quad_views(ts: Seq<[u8; 4]>) -> Seq<Seq<u8>> {
    ts.map_values(|t: [u8; 4]| t@)
}

/// Decodes one run-length channel, as [`rle_channel`] from an empty
/// channel.
fn read_rle_channel(b: &[u8], idx: usize, w: usize) -> (r: Result<(Vec<u8>, usize), RgbeError>)
    requires
        idx <= b@.len(),
    ensures
        match rle_channel(b@, idx as nat, w as nat, Seq::empty()) {
            Ok((c, next)) => r matches Ok((c2, n2)) && c2@ == c && n2 == next && next <= b@.len()
                && c.len() >= w,
            Err(e) => r == Err::<(Vec<u8>, usize), RgbeError>(e),
        },
{
    let mut channel: Vec<u8> = Vec::new();
    let mut i: usize = idx;
    while channel.len() < w
        invariant
            i <= b@.len(),
            channel@.len() <= w,
            rle_channel(b@, idx as nat, w as nat, Seq::empty()) == rle_channel(
                b@,
                i as nat,
                w as nat,
                channel@,
            ),
        decreases b@.len() - i,
    {
        if b.len() - i < 2 {
            return Err(RgbeError::EofInRleStream);
        }
        let count = b[i];
        if count > 128 {
            let n: usize = (count - 128) as usize;
            if n > w - channel.len() || n > b.len() - (i + 1) {
                return Err(RgbeError::RleNonRunOutOfRange);
            }
            let ghost prev = channel@;
            let mut k: usize = 0;
            while k < n
                invariant
                    k <= n,
                    i + 1 + n <= b@.len(),
                    i < b@.len(),
                    b@.len() <= usize::MAX,
                    channel@ == prev + b@.subrange(i + 1, i + 1 + k),
                decreases n - k,
            {
                channel.push(b[i + 1 + k]);
                assert(b@.subrange(i + 1, i + 1 + k + 1) =~= b@.subrange(i + 1, i + 1 + k).push(
                    b@[i + 1 + k],
                ));
                k = k + 1;
            }
            i = i + 1 + n;
        } else {
            let value = b[i + 1];
            let ghost prev = channel@;
            let mut k: u8 = 0;
            while k < count
                invariant
                    k <= count,
                    channel@ == prev + Seq::new(k as nat, |j: int| value),
                decreases count - k,
            {
                channel.push(value);
                assert(Seq::new((k + 1) as nat, |j: int| value) =~= Seq::new(k as nat, |j: int| value).push(value));
                k = k + 1;
            }
            assert(Seq::new(count as nat, |j: int| b@[i + 1]) =~= Seq::new(count as nat, |j: int| value));
            i = i + 2;
            if channel.len() > w {
                proof {
                    assert(rle_channel(b@, i as nat, w as nat, channel@) == Ok::<(Seq<u8>, nat), RgbeError>((channel@, i as nat)));
                }
                return Ok((channel, i));
            }
        }
    }
    Ok((channel, i))
}

/// Decodes one scanline of `w` pixels from byte `idx`, appending its
/// texels to `out`; returns the offset of the next scanline.
fn read_scanline(b: &[u8], idx: usize, w: usize, out: &mut Vec<[u8; 4]>) -> (r: Result<usize, RgbeError>)
    requires
        idx <= b@.len(),
    ensures
        match scanline(b@, idx as nat, w as nat) {
            Ok((t, next)) => r matches Ok(n) && n == next && next <= b@.len() && quad_views(
                final(out)@,
            ) == quad_views(old(out)@) + t,
            Err(e) => r == Err::<usize, RgbeError>(e),
        },
{
    if b.len() - idx < 4 {
        return Err(RgbeError::EofAtScanlineStart);
    }
    let ghost start = out@;
    let rle = b[idx] == 2 && 8 <= w && w <= 32767;
    if !rle {
        if w > (b.len() - idx) / 4 {
            return Err(RgbeError::EofInPixelData);
        }
        let mut x: usize = 0;
        let mut c: usize = idx;
        while x < w
            invariant
                x <= w,
                c == idx + 4 * x,
                idx + 4 * w <= b@.len(),
                quad_views(out@) == quad_views(start) + Seq::new(
                    x as nat,
                    |j: int| b@.subrange(idx + 4 * j, idx + 4 * j + 4),
                ),
            decreases w - x,
        {
            let q: [u8; 4] = [b[c], b[c + 1], b[c + 2], b[c + 3]];
            assert(q@ =~= b@.subrange(c as int, c + 4));
            let ghost prevq = out@;
            out.push(q);
            assert(quad_views(out@) =~= quad_views(prevq).push(q@));
            assert(quad_views(out@) =~= quad_views(start) + Seq::new(
                (x + 1) as nat,
                |j: int| b@.subrange(idx + 4 * j, idx + 4 * j + 4),
            ));
            c = c + 4;
            x = x + 1;
        }
        return Ok(c);
    }
    if b.len() - idx < 5 {
        return Err(RgbeError::EofInRleHeader);
    }
    let (c0, i1) = match read_rle_channel(b, idx + 5, w) {
        Ok(x) => x,
        Err(e) => {
            return Err(e);
        },
    };
    let (c1, i2) = match read_rle_channel(b, i1, w) {
        Ok(x) => x,
        Err(e) => {
            return Err(e);
        },
    };
    let (c2, i3) = match read_rle_channel(b, i2, w) {
        Ok(x) => x,
        Err(e) => {
            return Err(e);
        },
    };
    let (c3, i4) = match read_rle_channel(b, i3, w) {
        Ok(x) => x,
        Err(e) => {
            return Err(e);
        },
    };
    let mut x: usize = 0;
    while x < w
        invariant
            x <= w,
            c0@.len() >= w,
            c1@.len() >= w,
            c2@.len() >= w,
            c3@.len() >= w,
            quad_views(out@) == quad_views(start) + Seq::new(
                x as nat,
                |j: int| seq![c0@[j], c1@[j], c2@[j], c3@[j]],
            ),
        decreases w - x,
    {
        let q: [u8; 4] = [c0[x], c1[x], c2[x], c3[x]];
        assert(q@ =~= seq![c0@[x as int], c1@[x as int], c2@[x as int], c3@[x as int]]);
        let ghost prevq = out@;
        out.push(q);
        assert(quad_views(out@) =~= quad_views(prevq).push(q@));
        assert(quad_views(out@) =~= quad_views(start) + Seq::new(
            (x + 1) as nat,
            |j: int| seq![c0@[j], c1@[j], c2@[j], c3@[j]],
        ));
        x = x + 1;
    }
    Ok(i4)
}

/// Decodes a Radiance RGBE file to its width, height and row-major RGBE
/// texels.
pub fn decode_rgbe_hdr(bytes: &[u8]) -> (r: Result<RgbeImage, RgbeError>)
    ensures
        match rgbe_decode(bytes@) {
            Ok((w, h, t)) => r matches Ok(img) && img.width == w && img.height == h && quad_views(
                img.texels@,
            ) == t,
            Err(e) => r == Err::<RgbeImage, RgbeError>(e),
        },
{
    let (idx, wo, ho) = match parse_header(bytes) {
        Ok(x) => x,
        Err(e) => {
            return Err(e);
        },
    };
    let (width, height) = match (wo, ho) {
        (Some(w), Some(h)) => {
            if w == 0 || h == 0 {
                return Err(RgbeError::ZeroResolution);
            }
            (w, h)
        },
        (Some(w), None) => {
            if w == 0 {
                return Err(RgbeError::ZeroResolution);
            }
            return Err(RgbeError::MissingResolution);
        },
        (None, Some(h)) => {
            if h == 0 {
                return Err(RgbeError::ZeroResolution);
            }
            return Err(RgbeError::MissingResolution);
        },
        (None, None) => {
            return Err(RgbeError::MissingResolution);
        },
    };
    assert((width as u64) * (height as u64) <= 0xFFFF_FFFE_0000_0001u64) by (nonlinear_arith)
        requires
            width <= 0xFFFF_FFFFu32,
            height <= 0xFFFF_FFFFu32,
    ;
    let total: u64 = (width as u64) * (height as u64);
    if total > 0xFFFF_FFFFu64 / 3 {
        return Err(RgbeError::TooLarge);
    }
    let ghost b = bytes@;
    let mut texels: Vec<[u8; 4]> = Vec::new();
    let mut cursor: usize = idx;
    let mut y: u32 = 0;
    proof {
        lemma_header_idx_le(b, 0, None, None);
        assert(quad_views(texels@) =~= Seq::<Seq<u8>>::empty());
    }
    while y < height
        invariant
            b == bytes@,
            y <= height,
            cursor <= b.len(),
            header_from(b, 0, None, None) == Ok::<(nat, Option<u32>, Option<u32>), RgbeError>((idx as nat, Some(width), Some(height))),
            width != 0,
            height != 0,
            width * height <= usize::MAX,
            width * height <= 0xFFFF_FFFFu32 / 3,
            scanlines(b, idx as nat, width as nat, height as nat) == after(
                quad_views(texels@),
                scanlines(b, cursor as nat, width as nat, (height - y) as nat),
            ),
        decreases height - y,
    {
        let ghost prev = quad_views(texels@);
        match read_scanline(bytes, cursor, width as usize, &mut texels) {
            Err(e) => {
                return Err(e);
            },
            Ok(next) => {
                proof {
                    let (t, n2) = scanline(b, cursor as nat, width as nat)->Ok_0;
                    assert(scanlines(b, cursor as nat, width as nat, (height - y) as nat) == after(
                        t,
                        scanlines(b, n2, width as nat, (height - y - 1) as nat),
                    ));
                    let rest = scanlines(b, n2, width as nat, (height - y - 1) as nat);
                    assert(next as nat == n2);
                    assert(quad_views(texels@) == prev + t);
                    match rest {
                        Ok(r) => {
                            assert(prev + (t + r) =~= (prev + t) + r);
                        },
                        Err(_) => {},
                    }
                    assert(after(prev, after(t, rest)) == after(prev + t, rest));
                    assert((height - y - 1) as nat == (height - (y + 1)) as nat);
                }
                cursor = next;
            },
        }
        y = y + 1;
    }
    assert(quad_views(texels@) + Seq::<Seq<u8>>::empty() =~= quad_views(texels@));
    Ok(RgbeImage { width, height, texels })
}

/// The header ends within the input.
pub proof fn lemma_header_idx_le(b: Seq<u8>, idx: nat, w: Option<u32>, h: Option<u32>)
    requires
        idx <= b.len(),
    ensures
        header_from(b, idx, w, h) matches Ok((i, _, _)) ==> i <= b.len(),
    decreases b.len() - idx,
{
    if idx < b.len() {
        lemma_newline_at_ge(b, idx);
        match newline_at(b, idx) {
            None => {},
            Some(p) => {
                if p >= idx && p < b.len() {
                    let line = b.subrange(idx as int, p as int);
                    match scan_tokens(tokens(line), 0, None, None) {
                        Ok((ly, lx)) => {
                            let h2 = match ly {
                                Some(v) => Some(v),
                                None => h,
                            };
                            let w2 = match lx {
                                Some(v) => Some(v),
                                None => w,
                            };
                            lemma_header_idx_le(b, p + 1, w2, h2);
                        },
                        Err(_) => {},
                    }
                    lemma_header_idx_le(b, p + 1, w, h);
                }
            },
        }
    }
}

/// A decoded scanline holds `w` texels of four bytes.
pub proof fn lemma_scanline_shape(b: Seq<u8>, idx: nat, w: nat)
    ensures
        scanline(b, idx, w) matches Ok((t, next)) ==> t.len() == w && forall|x: int|
            0 <= x < w ==> (#[trigger] t[x]).len() == 4,
{
}

/// Decoded scanlines hold `w` texels per row, four bytes each.
pub proof fn lemma_scanlines_shape(b: Seq<u8>, idx: nat, w: nat, rows: nat)
    ensures
        scanlines(b, idx, w, rows) matches Ok(t) ==> t.len() == w * rows && forall|x: int|
            0 <= x < t.len() ==> (#[trigger] t[x]).len() == 4,
    decreases rows,
{
    if rows > 0 {
        lemma_scanline_shape(b, idx, w);
        if let Ok((t, next)) = scanline(b, idx, w) {
            lemma_scanlines_shape(b, next, w, (rows - 1) as nat);
            if let Ok(rest) = scanlines(b, next, w, (rows - 1) as nat) {
                assert(w + w * (rows - 1) == w * rows) by (nonlinear_arith)
                    requires
                        rows > 0,
                ;
                let all = t + rest;
                assert forall|x: int| 0 <= x < all.len() implies (#[trigger] all[x]).len() == 4 by {
                    if x < t.len() {
                        assert(all[x] == t[x]);
                    } else {
                        assert(all[x] == rest[x - t.len()]);
                    }
                }
            }
        }
    } else {
        assert(w * rows == 0) by (nonlinear_arith)
            requires
                rows == 0,
        ;
    }
}

/// A decoded image holds exactly width times height texels of four bytes
/// each.
pub proof fn law_rgbe_texel_count(b: Seq<u8>)
    ensures
        rgbe_decode(b) matches Ok((w, h, t)) ==> t.len() == w * h && forall|x: int|
            0 <= x < t.len() ==> (#[trigger] t[x]).len() == 4,
{
    if let Ok((idx, wo, ho)) = header_from(b, 0, None, None) {
        if wo is Some && ho is Some {
            lemma_scanlines_shape(b, idx, wo->0 as nat, ho->0 as nat);
        }
    }
}

/// A plain scanline (no run-length marker, or a width outside the
/// run-length range) holds the `w` texels stored at its start, left to
/// right in file order, four bytes each, and the next scanline starts right
/// after them.
pub proof fn law_plain_scanline_in_file_order(b: Seq<u8>, idx: nat, w: nat)
    requires
        idx + 4 <= b.len(),
        idx + 4 * w <= b.len(),
        b[idx as int] != 2 || w < 8 || w > 32767,
    ensures
        scanline(b, idx, w) matches Ok((t, next)) && next == idx + 4 * w && t.len() == w && forall|x: int, k: int|
            0 <= x < w && 0 <= k < 4 ==> #[trigger] t[x][k] == b[idx + 4 * x + k],
{
    if let Ok((t, next)) = scanline(b, idx, w) {
        assert forall|x: int, k: int| 0 <= x < w && 0 <= k < 4 implies #[trigger] t[x][k] == b[idx + 4 * x + k] by {
            assert(t[x] == b.subrange(idx + 4 * x, idx + 4 * x + 4));
        }
    }
}

/// Rows of plain scanlines of a width outside the run-length range decode
/// to the texels stored one after the other from `idx`, in file order.
pub proof fn lemma_plain_rows_in_file_order(b: Seq<u8>, idx: nat, w: nat, rows: nat)
    requires
        w < 8 || w > 32767,
    ensures
        scanlines(b, idx, w, rows) matches Ok(t) ==> forall|i: int, k: int|
            0 <= i < t.len() && 0 <= k < 4 ==> #[trigger] t[i][k] == b[idx + 4 * i + k],
    decreases rows,
{
    if rows > 0 {
        if let Ok((t0, next)) = scanline(b, idx, w) {
            lemma_plain_rows_in_file_order(b, next, w, (rows - 1) as nat);
            if let Ok(rest) = scanlines(b, next, w, (rows - 1) as nat) {
                assert(next == idx + 4 * w);
                assert(t0.len() == w);
                let all = t0 + rest;
                assert forall|i: int, k: int| 0 <= i < all.len() && 0 <= k < 4 implies #[trigger] all[i][k]
                    == b[idx + 4 * i + k] by {
                    if i < w {
                        assert(all[i] == t0[i]);
                        assert(t0[i] == b.subrange(idx + 4 * i, idx + 4 * i + 4));
                    } else {
                        assert(all[i] == rest[i - w]);
                        assert(rest[i - w][k] == b[next + 4 * (i - w) + k]);
                    }
                }
            }
        }
    }
}

/// An image whose width is outside the run-length range is stored as
/// plain texels: decoded texel `i` (row-major) is the four bytes at
/// `s + 4 i` in file order, where `s` is the end of the header.
pub proof fn law_rgbe_plain_image_in_file_order(b: Seq<u8>)
    ensures
        match (rgbe_decode(b), header_from(b, 0, None, None)) {
            (Ok((w, h, t)), Ok((s, _, _))) => (w < 8 || w > 32767) ==> forall|i: int, k: int|
                0 <= i < t.len() && 0 <= k < 4 ==> #[trigger] t[i][k] == b[s + 4 * i + k],
            _ => true,
        },
{
    if let Ok((s, wo, ho)) = header_from(b, 0, None, None) {
        if wo is Some && ho is Some {
            let w = wo->0;
            if w < 8 || w > 32767 {
                lemma_plain_rows_in_file_order(b, s, w as nat, ho->0 as nat);
            }
        }
    }
}

} // verus!
