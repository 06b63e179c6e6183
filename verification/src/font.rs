//! The bitmap font of the debug menus and the text lines drawn with it.
//!
//! A font source is text with one glyph per line: up to eight bytes written in
//! hexadecimal and separated by ASCII whitespace, the first byte being the top
//! row of the 8x8 glyph. The glyph of character code `c` is on line `c`.

use vstd::prelude::*;
use vstd::std_specs::iter::IteratorSpec;
use std::sync::Arc;

verus! {

broadcast use vstd::string::axiom_spec_iter, vstd::string::next_postcondition;

/// Number of glyphs in a font.
pub const GLYPH_COUNT: usize = 128;

/// Most characters a text line shows.
pub const MAX_CHARS_PER_LINE: usize = 128;

/// Most lines a menu shows.
pub const MAX_LINES: usize = 128;

/// Why a hexadecimal byte could not be read.
#[derive(Clone, Copy, PartialEq, Eq, Structural, Debug)]
pub enum ByteErrorKind {
    /// No digits at all.
    Empty,
    /// A character that is not a hexadecimal digit.
    InvalidDigit,
    /// The value does not fit in a byte.
    PosOverflow,
}

/// Whitespace as `str::trim` understands it (the Unicode `White_Space` property).
pub open spec fn is_whitespace(c: char) -> bool {
    ||| c == '\t'
    ||| c == '\n'
    ||| c == '\u{0B}'
    ||| c == '\u{0C}'
    ||| c == '\r'
    ||| c == ' '
    ||| c == '\u{85}'
    ||| c == '\u{A0}'
    ||| c == '\u{1680}'
    ||| ('\u{2000}' <= c && c <= '\u{200A}')
    ||| c == '\u{2028}'
    ||| c == '\u{2029}'
    ||| c == '\u{202F}'
    ||| c == '\u{205F}'
    ||| c == '\u{3000}'
}

/// Whitespace as `str::split_ascii_whitespace` understands it.
pub open spec fn is_ascii_whitespace(c: char) -> bool {
    c == ' ' || c == '\t' || c == '\n' || c == '\u{0C}' || c == '\r'
}

/// First index at or after `a` in `a .. b` that is not whitespace, or `b`.
pub open spec fn trim_start(s: Seq<char>, a: int, b: int) -> int
    decreases b - a,
{
    if a >= b || !is_whitespace(s[a]) {
        a
    } else {
        trim_start(s, a + 1, b)
    }
}

/// One past the last index before `b` in `a .. b` that is not whitespace, or `a`.
pub open spec fn trim_end(s: Seq<char>, a: int, b: int) -> int
    decreases b - a,
{
    if a >= b || !is_whitespace(s[b - 1]) {
        b
    } else {
        trim_end(s, a, b - 1)
    }
}

/// First index of a line feed in `a .. b`, or `b`.
pub open spec fn next_line_feed(s: Seq<char>, a: int, b: int) -> int
    decreases b - a,
{
    if a >= b || s[a] == '\n' {
        a
    } else {
        next_line_feed(s, a + 1, b)
    }
}

/// The lines of `s[a .. b]` as `str::lines` gives them: split at line feeds, a
/// carriage return before a line feed dropped, no line after a final line feed.
pub open spec fn lines_of(s: Seq<char>, a: int, b: int) -> Seq<(int, int)>
    decreases b - a,
{
    if a >= b {
        Seq::empty()
    } else {
        let k = next_line_feed(s, a, b);
        proof {
            lemma_next_line_feed(s, a, b);
        }
        let e = if k < b && k > a && s[k - 1] == '\r' {
            k - 1
        } else {
            k
        };
        if k >= b {
            seq![(a, e)]
        } else {
            seq![(a, e)] + lines_of(s, k + 1, b)
        }
    }
}

/// First index at or after `a` in `a .. b` that is ASCII whitespace (`want`) or
/// is not (`!want`), or `b`.
pub open spec fn scan_ascii_ws(s: Seq<char>, a: int, b: int, want: bool) -> int
    decreases b - a,
{
    if a >= b || is_ascii_whitespace(s[a]) == want {
        a
    } else {
        scan_ascii_ws(s, a + 1, b, want)
    }
}

/// The tokens of `s[a .. b]` as `str::split_ascii_whitespace` gives them.
pub open spec fn tokens_of(s: Seq<char>, a: int, b: int) -> Seq<(int, int)>
    decreases b - a,
{
    let t = scan_ascii_ws(s, a, b, false);
    if t >= b || a >= b {
        Seq::empty()
    } else {
        let e = scan_ascii_ws(s, t, b, true);
        proof {
            lemma_scan_ascii_ws(s, a, b, false);
            lemma_scan_ascii_ws(s, t, b, true);
        }
        if e <= t {
            Seq::empty()
        } else {
            seq![(t, e)] + tokens_of(s, e, b)
        }
    }
}

pub proof fn lemma_next_line_feed(s: Seq<char>, a: int, b: int)
    requires
        a <= b,
    ensures
        a <= next_line_feed(s, a, b) <= b,
        next_line_feed(s, a, b) < b ==> s[next_line_feed(s, a, b)] == '\n',
    decreases b - a,
{
    if a < b && s[a] != '\n' {
        lemma_next_line_feed(s, a + 1, b);
    }
}

pub proof fn lemma_scan_ascii_ws(s: Seq<char>, a: int, b: int, want: bool)
    requires
        a <= b,
    ensures
        a <= scan_ascii_ws(s, a, b, want) <= b,
        scan_ascii_ws(s, a, b, want) < b ==> is_ascii_whitespace(s[scan_ascii_ws(s, a, b, want)]) == want,
    decreases b - a,
{
    if a < b && is_ascii_whitespace(s[a]) != want {
        lemma_scan_ascii_ws(s, a + 1, b, want);
    }
}

/// Value of a hexadecimal digit.
pub open spec fn hex_digit(c: char) -> Option<u32> {
    if '0' <= c && c <= '9' {
        Some((c as u32 - '0' as u32) as u32)
    } else if 'a' <= c && c <= 'f' {
        Some((c as u32 - 'a' as u32 + 10) as u32)
    } else if 'A' <= c && c <= 'F' {
        Some((c as u32 - 'A' as u32 + 10) as u32)
    } else {
        None
    }
}

/// Reads the digits `s[i .. b]` onto `acc`, left to right: the first
/// non-digit is an invalid digit, a value past 255 an overflow.
pub open spec fn hex_digits(s: Seq<char>, i: int, b: int, acc: int) -> Result<u8, ByteErrorKind>
    decreases b - i,
{
    if i >= b {
        Ok(acc as u8)
    } else {
        match hex_digit(s[i]) {
            None => Err(ByteErrorKind::InvalidDigit),
            Some(d) => if acc * 16 + d > 255 {
                Err(ByteErrorKind::PosOverflow)
            } else {
                hex_digits(s, i + 1, b, acc * 16 + d)
            },
        }
    }
}

/// A byte written in hexadecimal in `s[a .. b]`, with an optional leading `+`,
/// as `u8::from_str_radix(_, 16)` reads it.
pub open spec fn parse_hex_byte(s: Seq<char>, a: int, b: int) -> Result<u8, ByteErrorKind> {
    if a >= b {
        Err(ByteErrorKind::Empty)
    } else if s[a] == '+' {
        if a + 1 >= b {
            Err(ByteErrorKind::InvalidDigit)
        } else {
            hex_digits(s, a + 1, b, 0)
        }
    } else {
        hex_digits(s, a, b, 0)
    }
}

/// Outcome of reading the bytes of one line.
pub enum LineBytes {
    /// The bytes, padded with zeros to eight.
    Read(Seq<u8>),
    /// A byte could not be read.
    Failed(ByteErrorKind),
    /// The line has more than eight bytes.
    TooLong,
}

/// Reads the tokens `toks[i ..]` into `bytes`, in order.
pub open spec fn read_line_bytes(s: Seq<char>, toks: Seq<(int, int)>, i: int, bytes: Seq<u8>) -> LineBytes
    decreases toks.len() - i,
{
    if i < 0 || i >= toks.len() {
        LineBytes::Read(bytes)
    } else {
        match parse_hex_byte(s, toks[i].0, toks[i].1) {
            Err(k) => LineBytes::Failed(k),
            Ok(v) => if i >= 8 {
                LineBytes::TooLong
            } else {
                read_line_bytes(s, toks, i + 1, bytes.update(i, v))
            },
        }
    }
}

/// Big-endian value of the bytes `b[0 .. n]`.
pub open spec fn be_value(b: Seq<u8>, n: int) -> int
    decreases n,
{
    if n <= 0 {
        0
    } else {
        be_value(b, n - 1) * 256 + b[n - 1]
    }
}

/// Outcome of reading a whole font source.
pub enum BitmapOutcome {
    Read(Seq<u64>),
    Failed(ByteErrorKind),
    /// More than eight bytes on a line or more than `GLYPH_COUNT` lines.
    TooLarge,
}

/// Reads the lines `lines[li ..]` of `s` into `bitmap`, in order.
pub open spec fn read_lines(s: Seq<char>, lines: Seq<(int, int)>, li: int, bitmap: Seq<u64>) -> BitmapOutcome
    decreases lines.len() - li,
{
    if li < 0 || li >= lines.len() {
        BitmapOutcome::Read(bitmap)
    } else {
        let a = trim_start(s, lines[li].0, lines[li].1);
        let b = trim_end(s, a, lines[li].1);
        match read_line_bytes(s, tokens_of(s, a, b), 0, Seq::new(8, |i: int| 0u8)) {
            LineBytes::Failed(k) => BitmapOutcome::Failed(k),
            LineBytes::TooLong => BitmapOutcome::TooLarge,
            LineBytes::Read(bytes) => if li >= GLYPH_COUNT {
                BitmapOutcome::TooLarge
            } else {
                read_lines(s, lines, li + 1, bitmap.update(li, be_value(bytes, 8) as u64))
            },
        }
    }
}

/// What reading the font source `s` gives: the whole source is trimmed, split
/// into lines, each line trimmed and split into bytes.
pub open spec fn bitmap_outcome(s: Seq<char>) -> BitmapOutcome {
    let a = trim_start(s, 0, s.len() as int);
    let b = trim_end(s, a, s.len() as int);
    read_lines(s, lines_of(s, a, b), 0, Seq::new(GLYPH_COUNT as nat, |i: int| 0u64))
}

fn is_whitespace_char(c: char) -> (r: bool)
    ensures
        r == is_whitespace(c),
{
    c == '\t' || c == '\n' || c == '\u{0B}' || c == '\u{0C}' || c == '\r' || c == ' ' || c == '\u{85}'
        || c == '\u{A0}' || c == '\u{1680}' || ('\u{2000}' <= c && c <= '\u{200A}') || c == '\u{2028}'
        || c == '\u{2029}' || c == '\u{202F}' || c == '\u{205F}' || c == '\u{3000}'
}

fn is_ascii_whitespace_char(c: char) -> (r: bool)
    ensures
        r == is_ascii_whitespace(c),
{
    c == ' ' || c == '\t' || c == '\n' || c == '\u{0C}' || c == '\r'
}

fn find_trim_start(s: &Vec<char>, a: usize, b: usize) -> (r: usize)
    requires
        a <= b <= s@.len(),
    ensures
        r == trim_start(s@, a as int, b as int),
        a <= r <= b,
    decreases b - a,
{
    if a >= b || !is_whitespace_char(s[a]) {
        a
    } else {
        find_trim_start(s, a + 1, b)
    }
}

fn find_trim_end(s: &Vec<char>, a: usize, b: usize) -> (r: usize)
    requires
        a <= b <= s@.len(),
    ensures
        r == trim_end(s@, a as int, b as int),
        a <= r <= b,
    decreases b - a,
{
    if a >= b || !is_whitespace_char(s[b - 1]) {
        b
    } else {
        find_trim_end(s, a, b - 1)
    }
}

fn find_line_feed(s: &Vec<char>, a: usize, b: usize) -> (r: usize)
    requires
        a <= b <= s@.len(),
    ensures
        r == next_line_feed(s@, a as int, b as int),
        a <= r <= b,
    decreases b - a,
{
    if a >= b || s[a] == '\n' {
        a
    } else {
        find_line_feed(s, a + 1, b)
    }
}

fn find_ascii_ws(s: &Vec<char>, a: usize, b: usize, want: bool) -> (r: usize)
    requires
        a <= b <= s@.len(),
    ensures
        r == scan_ascii_ws(s@, a as int, b as int, want),
        a <= r <= b,
    decreases b - a,
{
    if a >= b || is_ascii_whitespace_char(s[a]) == want {
        a
    } else {
        find_ascii_ws(s, a + 1, b, want)
    }
}

fn hex_digit_value(c: char) -> (r: Option<u32>)
    ensures
        r == hex_digit(c),
{
    if '0' <= c && c <= '9' {
        Some(c as u32 - '0' as u32)
    } else if 'a' <= c && c <= 'f' {
        Some(c as u32 - 'a' as u32 + 10)
    } else if 'A' <= c && c <= 'F' {
        Some(c as u32 - 'A' as u32 + 10)
    } else {
        None
    }
}

fn read_hex_digits(s: &Vec<char>, i: usize, b: usize, acc: u32) -> (r: Result<u8, ByteErrorKind>)
    requires
        i <= b <= s@.len(),
        acc <= 255,
    ensures
        r == hex_digits(s@, i as int, b as int, acc as int),
    decreases b - i,
{
    if i >= b {
        Ok(acc as u8)
    } else {
        match hex_digit_value(s[i]) {
            None => Err(ByteErrorKind::InvalidDigit),
            Some(d) => {
                if acc * 16 + d > 255 {
                    Err(ByteErrorKind::PosOverflow)
                } else {
                    read_hex_digits(s, i + 1, b, acc * 16 + d)
                }
            },
        }
    }
}

/// Reads a byte written in hexadecimal in `s[a .. b]`.
pub fn hex_byte(s: &Vec<char>, a: usize, b: usize) -> (r: Result<u8, ByteErrorKind>)
    requires
        a <= b <= s@.len(),
    ensures
        r == parse_hex_byte(s@, a as int, b as int),
{
    if a >= b {
        Err(ByteErrorKind::Empty)
    } else if s[a] == '+' {
        if a + 1 >= b {
            Err(ByteErrorKind::InvalidDigit)
        } else {
            read_hex_digits(s, a + 1, b, 0)
        }
    } else {
        read_hex_digits(s, a, b, 0)
    }
}

/// The characters of `text`, in order.
fn chars_of(text: &str) -> (v: Vec<char>)
    ensures
        v@ == text@,
{
    let mut v: Vec<char> = Vec::new();
    let mut it = text.chars();
    loop
        invariant
            it.obeys_prophetic_iter_laws(),
            v@ + it.remaining() == text@,
        ensures
            v@ == text@,
        decreases text@.len() - v@.len(),
    {
        let ghost before = it.remaining();
        match it.next() {
            Some(c) => {
                proof {
                    assert(v@.push(c) + before.drop_first() =~= v@ + before);
                }
                v.push(c);
            },
            None => {
                proof {
                    assert(v@ + before =~= v@);
                }
                break;
            },
        }
    }
    v
}

/// 256 to the power `n`.
pub open spec fn base256(n: int) -> int
    decreases n,
{
    if n <= 0 {
        1
    } else {
        256 * base256(n - 1)
    }
}

proof fn lemma_base256_mono(n: int, m: int)
    requires
        0 <= n <= m,
    ensures
        1 <= base256(n) <= base256(m),
    decreases m,
{
    if n < m {
        lemma_base256_mono(n, m - 1);
    } else if n > 0 {
        lemma_base256_mono(n - 1, n - 1);
    }
}

proof fn lemma_be_value_bound(b: Seq<u8>, n: int)
    requires
        0 <= n <= b.len(),
    ensures
        0 <= be_value(b, n) < base256(n),
    decreases n,
{
    if n > 0 {
        lemma_be_value_bound(b, n - 1);
        assert(be_value(b, n - 1) * 256 + b[n - 1] < 256 * base256(n - 1)) by (nonlinear_arith)
            requires
                0 <= be_value(b, n - 1) < base256(n - 1),
                0 <= b[n - 1] < 256,
        ;
    }
}

/// `u64::from_be_bytes`: the bytes read as a big-endian number.
fn u64_from_be(bytes: &[u8; 8]) -> (r: u64)
    ensures
        r == be_value(bytes@, 8),
{
    let mut acc: u64 = 0;
    let mut i: usize = 0;
    while i < 8
        invariant
            i <= 8,
            acc == be_value(bytes@, i as int),
        decreases 8 - i,
    {
        proof {
            lemma_be_value_bound(bytes@, i as int);
            lemma_base256_mono(i as int, 7);
            assert(base256(7) == 0x100_0000_0000_0000) by {
                reveal_with_fuel(base256, 8);
            }
            assert(acc * 256 + bytes@[i as int] <= u64::MAX) by (nonlinear_arith)
                requires
                    acc < 0x100_0000_0000_0000,
                    bytes@[i as int] < 256,
            ;
        }
        acc = acc * 256 + bytes[i] as u64;
        i = i + 1;
    }
    acc
}

fn read_line(s: &Vec<char>, a: usize, b: usize) -> (r: Result<[u8; 8], Option<ByteErrorKind>>)
    requires
        a <= b <= s@.len(),
    ensures
        match read_line_bytes(s@, tokens_of(s@, a as int, b as int), 0, Seq::new(8, |i: int| 0u8)) {
            LineBytes::Read(bytes) => r matches Ok(out) && out@ == bytes,
            LineBytes::Failed(k) => r == Err::<[u8; 8], Option<ByteErrorKind>>(Some(k)),
            LineBytes::TooLong => r == Err::<[u8; 8], Option<ByteErrorKind>>(None),
        },
{
    let mut bytes = [0u8; 8];
    let mut pos = a;
    let mut count: usize = 0;
    let ghost toks = tokens_of(s@, a as int, b as int);
    proof {
        assert(bytes@ =~= Seq::new(8, |i: int| 0u8));
    }
    loop
        invariant
            a <= pos <= b <= s@.len(),
            count <= 8,
            toks == tokens_of(s@, a as int, b as int),
            count <= toks.len(),
            tokens_of(s@, pos as int, b as int) == toks.subrange(count as int, toks.len() as int),
            read_line_bytes(s@, toks, 0, Seq::new(8, |i: int| 0u8)) == read_line_bytes(
                s@,
                toks,
                count as int,
                bytes@,
            ),
        decreases b - pos,
    {
        let t = find_ascii_ws(s, pos, b, false);
        if t >= b {
            proof {
                assert(tokens_of(s@, pos as int, b as int).len() == 0);
            }
            return Ok(bytes);
        }
        let e = find_ascii_ws(s, t, b, true);
        proof {
            lemma_scan_ascii_ws(s@, pos as int, b as int, false);
            assert(e > t) by {
                assert(!is_ascii_whitespace(s@[t as int]));
                lemma_scan_ascii_ws(s@, t + 1, b as int, true);
                assert(scan_ascii_ws(s@, t as int, b as int, true) == scan_ascii_ws(s@, t + 1, b as int, true));
            }
            let rest = tokens_of(s@, pos as int, b as int);
            assert(rest == seq![(t as int, e as int)] + tokens_of(s@, e as int, b as int));
            assert(rest.len() >= 1 && rest[0] == (t as int, e as int));
            assert(count < toks.len());
            assert(toks.subrange(count as int, toks.len() as int)[0] == toks[count as int]);
            assert(toks[count as int] == (t as int, e as int));
            assert(rest.subrange(1, rest.len() as int) =~= tokens_of(s@, e as int, b as int));
            assert(rest.subrange(1, rest.len() as int) =~= toks.subrange(count + 1, toks.len() as int));
        }
        match hex_byte(s, t, e) {
            Err(k) => {
                return Err(Some(k));
            },
            Ok(v) => {
                if count >= 8 {
                    return Err(None);
                }
                bytes[count] = v;
                count = count + 1;
                pos = e;
            },
        }
    }
}

/// Glyph bitmaps and the spacing of the debug text.
pub struct Font {
    pub bitmap: [u64; GLYPH_COUNT],
    pub char_size: usize,
    pub char_padding: usize,
    pub line_size: usize,
    pub line_padding: usize,
}

impl Font {
    /// Reads a font source into the glyph bitmaps; glyphs without a line are
    /// zero. Each line holds up to eight bytes written in hexadecimal; an
    /// unreadable byte is an error.
    pub fn parse_bitmap(source: &str) -> (r: Result<[u64; GLYPH_COUNT], ByteErrorKind>)
        requires
            !(bitmap_outcome(source@) is TooLarge),
        ensures
            match bitmap_outcome(source@) {
                BitmapOutcome::Read(bitmap) => r matches Ok(out) && out@ == bitmap,
                BitmapOutcome::Failed(k) => r == Err::<[u64; GLYPH_COUNT], ByteErrorKind>(k),
                BitmapOutcome::TooLarge => false,
            },
    {
        let s = chars_of(source);
        let n = s.len();
        let a = find_trim_start(&s, 0, n);
        let b = find_trim_end(&s, a, n);
        let mut bitmap = [0u64; GLYPH_COUNT];
        let ghost lines = lines_of(s@, a as int, b as int);
        let mut pos = a;
        let mut line_index: usize = 0;
        proof {
            assert(bitmap@ =~= Seq::new(GLYPH_COUNT as nat, |i: int| 0u64));
        }
        while pos < b
            invariant
                s@ == source@,
                a <= pos <= b <= s@.len(),
                lines == lines_of(s@, a as int, b as int),
                line_index <= lines.len(),
                line_index <= GLYPH_COUNT,
                lines_of(s@, pos as int, b as int) == lines.subrange(line_index as int, lines.len() as int),
                bitmap_outcome(source@) == read_lines(s@, lines, line_index as int, bitmap@),
                !(bitmap_outcome(source@) is TooLarge),
            decreases b - pos,
        {
            let k = find_line_feed(&s, pos, b);
            let e = if k < b && k > pos && s[k - 1] == '\r' {
                k - 1
            } else {
                k
            };
            proof {
                lemma_next_line_feed(s@, pos as int, b as int);
                let rest = lines_of(s@, pos as int, b as int);
                assert(rest.len() >= 1 && rest[0] == (pos as int, e as int));
                assert(line_index < lines.len());
                assert(lines.subrange(line_index as int, lines.len() as int)[0] == lines[line_index as int]);
                assert(lines[line_index as int] == (pos as int, e as int));
                if k < b {
                    assert(rest.subrange(1, rest.len() as int) =~= lines_of(s@, k + 1, b as int));
                    assert(rest.subrange(1, rest.len() as int) =~= lines.subrange(line_index + 1, lines.len() as int));
                } else {
                    assert(lines.subrange(line_index + 1, lines.len() as int) =~= Seq::<(int, int)>::empty());
                }
            }
            let la = find_trim_start(&s, pos, e);
            let lb = find_trim_end(&s, la, e);
            match read_line(&s, la, lb) {
                Err(Some(kind)) => {
                    return Err(kind);
                },
                Err(None) => {
                    proof {
                        assert(false);
                    }
                    return Err(ByteErrorKind::Empty);
                },
                Ok(bytes) => {
                    if line_index >= GLYPH_COUNT {
                        proof {
                            assert(false);
                        }
                        return Err(ByteErrorKind::Empty);
                    }
                    let value = u64_from_be(&bytes);
                    bitmap[line_index] = value;
                    line_index = line_index + 1;
                    if k >= b {
                        pos = b;
                        proof {
                            assert(line_index == lines.len());
                        }
                    } else {
                        pos = k + 1;
                    }
                },
            }
        }
        proof {
            if line_index < lines.len() {
                assert(lines_of(s@, pos as int, b as int).len() == 0);
            }
        }
        Ok(bitmap)
    }

    /// Reads the font source `source` (which must be readable) and uses 8-pixel
    /// characters and lines with one pixel of padding.
    pub fn new(source: &str) -> (font: Self)
        requires
            bitmap_outcome(source@) is Read,
        ensures
            bitmap_outcome(source@) matches BitmapOutcome::Read(bitmap) && font.bitmap@ == bitmap,
            font.char_size == 8,
            font.char_padding == 1,
            font.line_size == 8,
            font.line_padding == 1,
    {
        let bitmap = match Self::parse_bitmap(source) {
            Ok(b) => b,
            Err(_) => {
                proof {
                    assert(false);
                }
                [0u64; GLYPH_COUNT]
            },
        };
        Font { bitmap, char_size: 8, char_padding: 1, line_size: 8, line_padding: 1 }
    }
}

/// A pair of 32-bit values: the two halves of a glyph bitmap as the GPU reads them.
#[derive(Clone, Copy, PartialEq, Eq, Structural, Debug)]
pub struct UVec2 {
    pub x: u32,
    pub y: u32,
}

/// Glyph of a character: its code truncated to a byte, taken modulo the glyph count.
pub open spec fn glyph_index(c: char) -> int {
    ((c as u32) as u8) as int % (GLYPH_COUNT as int)
}

/// The two halves of a glyph bitmap: low 32 bits first.
pub open spec fn glyph_halves(bits: u64) -> UVec2 {
    UVec2 { x: (bits & 0xffff_ffff) as u32, y: ((bits >> 32u64) & 0xffff_ffff) as u32 }
}

/// The halves put back together give the glyph: the low half holds the low
/// 32 bits, the high half the high 32 bits.
pub proof fn lemma_glyph_halves_recombine(bits: u64)
    ensures
        glyph_halves(bits).x as u64 | ((glyph_halves(bits).y as u64) << 32u64) == bits,
{
    assert(((bits & 0xffff_ffff) as u32) as u64 | (((((bits >> 32u64) & 0xffff_ffff) as u32) as u64) << 32u64)
        == bits) by (bit_vector);
}

/// A character picks a glyph among the `GLYPH_COUNT`; an ASCII character
/// picks the glyph on the line of its own code.
pub proof fn lemma_glyph_index_of_ascii(c: char)
    ensures
        0 <= glyph_index(c) < GLYPH_COUNT,
        (c as u32) < 128 ==> glyph_index(c) == c as u32,
{
    let v = c as u32;
    if v < 128 {
        assert((v as u8) as u32 == v) by (bit_vector)
            requires
                v < 128,
        ;
    }
}

/// The glyphs of `text` in `bitmap`, one per character.
pub open spec fn glyphs_of(bitmap: Seq<u64>, text: Seq<char>) -> Seq<UVec2> {
    Seq::new(text.len(), |i: int| glyph_halves(bitmap[glyph_index(text[i])]))
}

/// `glyphs` followed by zero glyphs up to `MAX_CHARS_PER_LINE` entries.
pub open spec fn padded_glyphs(glyphs: Seq<UVec2>) -> Seq<UVec2> {
    Seq::new(
        MAX_CHARS_PER_LINE as nat,
        |j: int| if j < glyphs.len() { glyphs[j] } else { UVec2 { x: 0, y: 0 } },
    )
}

/// One line of debug text: its row and the glyph of each character.
pub struct TextLine {
    line_index: u32,
    characters: Vec<UVec2>,
}

impl TextLine {
    pub closed spec fn line_index_view(&self) -> u32 {
        self.line_index
    }

    pub closed spec fn characters_view(&self) -> Seq<UVec2> {
        self.characters@
    }

    /// An empty line on row `line_index`.
    pub fn new(line_index: u32) -> (line: Self)
        ensures
            line.line_index_view() == line_index,
            line.characters_view().len() == 0,
    {
        TextLine { line_index, characters: Vec::new() }
    }

    /// Replaces the characters of the line by the glyphs of `text`.
    pub fn set_text(&mut self, font: &Font, text: &str)
        ensures
            final(self).line_index_view() == old(self).line_index_view(),
            final(self).characters_view() == glyphs_of(font.bitmap@, text@),
    {
        let chars = chars_of(text);
        let mut characters: Vec<UVec2> = Vec::new();
        let mut i: usize = 0;
        while i < chars.len()
            invariant
                i <= chars@.len(),
                chars@ == text@,
                characters@ == glyphs_of(font.bitmap@, text@).subrange(0, i as int),
            decreases chars@.len() - i,
        {
            let ascii = chars[i] as u32 as u8;
            let bitmap = font.bitmap[(ascii % 128) as usize];
            let glyph = UVec2 { x: (bitmap & 0xffff_ffff) as u32, y: ((bitmap >> 32) & 0xffff_ffff) as u32 };
            proof {
                assert(glyph == glyph_halves(font.bitmap@[glyph_index(text@[i as int])]));
                assert(glyphs_of(font.bitmap@, text@).subrange(0, i + 1) =~= characters@.push(glyph));
            }
            characters.push(glyph);
            i = i + 1;
        }
        proof {
            assert(glyphs_of(font.bitmap@, text@).subrange(0, chars@.len() as int) =~= glyphs_of(font.bitmap@, text@));
        }
        self.characters = characters;
    }

    /// Row of the line, written first in the GPU layout.
    pub fn line_index(&self) -> (r: u32)
        ensures
            r == self.line_index_view(),
    {
        self.line_index
    }

    /// The glyph array of the GPU layout: the line's glyphs followed by zeros,
    /// `MAX_CHARS_PER_LINE` entries in all, and the number of glyphs.
    pub fn gpu_characters(&self) -> (r: (Vec<UVec2>, u32))
        requires
            self.characters_view().len() <= MAX_CHARS_PER_LINE,
        ensures
            r.0@ == padded_glyphs(self.characters_view()),
            r.1 == self.characters_view().len(),
    {
        let mut out: Vec<UVec2> = Vec::new();
        let mut i: usize = 0;
        while i < MAX_CHARS_PER_LINE
            invariant
                i <= MAX_CHARS_PER_LINE,
                self.characters@.len() <= MAX_CHARS_PER_LINE,
                out@.len() == i,
                forall|j: int| 0 <= j < i && j < self.characters@.len() ==> #[trigger] out@[j] == self.characters@[j],
                forall|j: int| self.characters@.len() <= j < i ==> #[trigger] out@[j] == (UVec2 { x: 0, y: 0 }),
            decreases MAX_CHARS_PER_LINE - i,
        {
            if i < self.characters.len() {
                out.push(self.characters[i]);
            } else {
                out.push(UVec2 { x: 0, y: 0 });
            }
            i = i + 1;
        }
        proof {
            assert(out@ =~= padded_glyphs(self.characters@));
        }
        (out, self.characters.len() as u32)
    }
}

/// A column of debug text lines drawn with a shared font.
pub struct DebugMenu {
    font: Arc<Font>,
    lines: Vec<TextLine>,
}

impl DebugMenu {
    pub closed spec fn font_view(&self) -> Font {
        *self.font
    }

    /// Row index and glyphs of each line, top first.
    pub closed spec fn lines_view(&self) -> Seq<(u32, Seq<UVec2>)> {
        self.lines@.map_values(|l: TextLine| (l.line_index, l.characters@))
    }

    pub fn new(font: Arc<Font>) -> (menu: Self)
        ensures
            menu.font_view() == *font,
            menu.lines_view().len() == 0,
    {
        let menu = DebugMenu { font, lines: Vec::new() };
        proof {
            assert(menu.lines_view() =~= Seq::<(u32, Seq<UVec2>)>::empty());
        }
        menu
    }

    /// Appends a line showing `text`, on the row after the last line.
    pub fn println(&mut self, text: &str)
        ensures
            final(self).font_view() == old(self).font_view(),
            final(self).lines_view() == old(self).lines_view().push(
                (old(self).lines_view().len() as u32, glyphs_of(old(self).font_view().bitmap@, text@)),
            ),
    {
        let mut line = TextLine::new(self.lines.len() as u32);
        line.set_text(&self.font, text);
        let ghost old_lines = self.lines@;
        self.lines.push(line);
        proof {
            assert(self.lines@.map_values(|l: TextLine| (l.line_index, l.characters@)) =~= old_lines.map_values(
                |l: TextLine| (l.line_index, l.characters@),
            ).push((old_lines.len() as u32, glyphs_of(self.font_view().bitmap@, text@))));
        }
    }

    /// Removes every line.
    pub fn reset(&mut self)
        ensures
            final(self).font_view() == old(self).font_view(),
            final(self).lines_view().len() == 0,
    {
        self.lines.clear();
        proof {
            assert(self.lines_view() =~= Seq::<(u32, Seq<UVec2>)>::empty());
        }
    }

    /// Number of lines.
    pub fn line_count(&self) -> (n: usize)
        ensures
            n == self.lines_view().len(),
    {
        self.lines.len()
    }

    /// The line array of the GPU layout: for each of `MAX_LINES` slots the
    /// row, the padded glyph array and the glyph count of the menu's line in
    /// that slot, or of an empty line on row 0 past the menu's last line.
    pub fn gpu_lines(&self) -> (r: Vec<(u32, Vec<UVec2>, u32)>)
        requires
            forall|i: int|
                0 <= i < self.lines_view().len() ==> (#[trigger] self.lines_view()[i]).1.len()
                    <= MAX_CHARS_PER_LINE,
        ensures
            r@.len() == MAX_LINES,
            forall|i: int|
                0 <= i < MAX_LINES && i < self.lines_view().len() ==> {
                    &&& (#[trigger] r@[i]).0 == self.lines_view()[i].0
                    &&& r@[i].1@ == padded_glyphs(self.lines_view()[i].1)
                    &&& r@[i].2 == self.lines_view()[i].1.len()
                },
            forall|i: int|
                self.lines_view().len() <= i < MAX_LINES ==> {
                    &&& (#[trigger] r@[i]).0 == 0
                    &&& r@[i].1@ == padded_glyphs(Seq::empty())
                    &&& r@[i].2 == 0
                },
    {
        let mut out: Vec<(u32, Vec<UVec2>, u32)> = Vec::new();
        let empty = TextLine::new(0);
        let mut i: usize = 0;
        while i < MAX_LINES
            invariant
                i <= MAX_LINES,
                out@.len() == i,
                empty.line_index_view() == 0,
                empty.characters_view().len() == 0,
                forall|k: int|
                    0 <= k < self.lines_view().len() ==> (#[trigger] self.lines_view()[k]).1.len()
                        <= MAX_CHARS_PER_LINE,
                forall|j: int|
                    0 <= j < i && j < self.lines_view().len() ==> {
                        &&& (#[trigger] out@[j]).0 == self.lines_view()[j].0
                        &&& out@[j].1@ == padded_glyphs(self.lines_view()[j].1)
                        &&& out@[j].2 == self.lines_view()[j].1.len()
                    },
                forall|j: int|
                    self.lines_view().len() <= j < i ==> {
                        &&& (#[trigger] out@[j]).0 == 0
                        &&& out@[j].1@ == padded_glyphs(Seq::empty())
                        &&& out@[j].2 == 0
                    },
            decreases MAX_LINES - i,
        {
            let line = if i < self.lines.len() {
                &self.lines[i]
            } else {
                &empty
            };
            proof {
                if i < self.lines@.len() {
                    assert(self.lines_view()[i as int] == (line.line_index, line.characters@));
                } else {
                    assert(line.characters@ =~= Seq::<UVec2>::empty());
                }
            }
            let (glyphs, count) = line.gpu_characters();
            out.push((line.line_index(), glyphs, count));
            i = i + 1;
        }
        out
    }

    /// The line at `index`.
    pub fn line(&self, index: usize) -> (line: &TextLine)
        requires
            index < self.lines_view().len(),
        ensures
            (line.line_index_view(), line.characters_view()) == self.lines_view()[index as int],
    {
        &self.lines[index]
    }
}

/// Lines showing `texts` on consecutive rows from row 0, as `println`
/// makes them in a menu that was reset.
pub open spec fn menu_lines(bitmap: Seq<u64>, texts: Seq<Seq<char>>) -> Seq<(u32, Seq<UVec2>)> {
    Seq::new(texts.len(), |i: int| (i as u32, glyphs_of(bitmap, texts[i])))
}

/// The text of the left debug menu, one entry per line.
pub open spec fn left_menu_text() -> Seq<Seq<char>> {
    seq![
        "Rachel Amber mentioned!! Rachel isn't just a character."@,
        "She's a phenomenon. She's a celestial event, a once-in-a-lifetime"@,
        "alignment of the stars, a cosmic masterpiece sculpted by the"@,
        "creators of Life is Strange themselves."@,
        "Loving Rachel Amber isn't a hobby, it's a lifestyle,"@,
        "a reason to live."@,
        "Every day I wake up and think of this woman."@,
        "There isn't one day where this woman isn't on my mind."@,
        "Rachel is what fuels my day; she is so gorgeous, beautiful,"@,
        "radiant, captivating, charming, elegant, striking,"@,
        "dashing, alluring, handsome, lovely, mesmerizing,"@,
        "enchanting, breathtaking, irresistible, charismatic,"@,
        "fashionable, incredible, incomparable, graceful,"@,
        "sophisticated, unforgettable, impressive, flawless,"@,
        "awe-inspiring, timeless, divine, jaw-dropping, dreamy,"@,
        "mesmeric, admirable, dazzling, impeccable, majestic,"@,
        "ethereal, unforgettable, incomparable, breathtaking,"@,
        "elegant, radiant, unrivaled, enchanting, alluring,"@,
        "pretty, graceful..."@,
        "Oh my Rachel. I love Rachel Amber."@,
        "I'm her n1 fan."@,
    ]
}

/// The text of the right debug menu, one entry per line.
pub open spec fn right_menu_text() -> Seq<Seq<char>> {
    seq![
        "Because most LPR-centered systems use automatic"@,
        "video/picture scanning, infrared (IR) light detectors"@,
        "can be used to report when such an LPR scans something."@,
        "With a small enough form-factor, these detectors can"@,
        "be mounted directly on a vehicle's license plate"@,
        "(front or rear) to react to the event of TAPS scanning it."@,
        "Upon activation, these devices can directly or"@,
        "indirectly signal out to a remote centralized system"@,
        "that aggregates all data, builds an activity hotspot"@,
        "timeline, and exposes a breakdown of TAPS activity"@,
        "by region."@,
        "Crowd Sourcing"@,
        "Alone, such a device cannot possibly gather enough"@,
        "data to build such a chart in a cheap manner."@,
        "The solution to this? The good people of Switzerland!"@,
        "Through the power of distributed intelligence,"@,
        "these devices can build a huge amount of space"@,
        "and time coverage, increasing reliability"@,
        "Phone Integration"@,
        "Furthermore, the device can communicate strictly"@,
        "with the user's phone, which can be paired"@,
        "upon activation when it comes to transmission."@,
        "This has the following advantages:"@,
        "Privacy data like GPS location is sent only"@,
        "with user permission, protecting them from"@,
        "being tracked by the server if a breach occurs."@,
        "The user can attach extra metadata such as"@,
        "exact parking garage, floor, or section."@,
        "When a device detects an LPR scan, it can"@,
        "broadcast a ping to nearby devices, allowing"@,
        "them to warn their users they may want"@,
        "to re-park soon!"@,
    ]
}

/// Resets `menu` and prints the left menu text.
fn fill_left_menu(menu: &mut DebugMenu)
    ensures
        final(menu).font_view() == old(menu).font_view(),
        final(menu).lines_view() == menu_lines(old(menu).font_view().bitmap@, left_menu_text()),
{
    menu.reset();
    menu.println("Rachel Amber mentioned!! Rachel isn't just a character.");
    menu.println("She's a phenomenon. She's a celestial event, a once-in-a-lifetime");
    menu.println("alignment of the stars, a cosmic masterpiece sculpted by the");
    menu.println("creators of Life is Strange themselves.");
    menu.println("Loving Rachel Amber isn't a hobby, it's a lifestyle,");
    menu.println("a reason to live.");
    menu.println("Every day I wake up and think of this woman.");
    menu.println("There isn't one day where this woman isn't on my mind.");
    menu.println("Rachel is what fuels my day; she is so gorgeous, beautiful,");
    menu.println("radiant, captivating, charming, elegant, striking,");
    menu.println("dashing, alluring, handsome, lovely, mesmerizing,");
    menu.println("enchanting, breathtaking, irresistible, charismatic,");
    menu.println("fashionable, incredible, incomparable, graceful,");
    menu.println("sophisticated, unforgettable, impressive, flawless,");
    menu.println("awe-inspiring, timeless, divine, jaw-dropping, dreamy,");
    menu.println("mesmeric, admirable, dazzling, impeccable, majestic,");
    menu.println("ethereal, unforgettable, incomparable, breathtaking,");
    menu.println("elegant, radiant, unrivaled, enchanting, alluring,");
    menu.println("pretty, graceful...");
    menu.println("Oh my Rachel. I love Rachel Amber.");
    menu.println("I'm her n1 fan.");
    proof {
        assert(menu.lines_view() =~= menu_lines(old(menu).font_view().bitmap@, left_menu_text()));
    }
}

/// Resets `menu` and prints the right menu text.
fn fill_right_menu(menu: &mut DebugMenu)
    ensures
        final(menu).font_view() == old(menu).font_view(),
        final(menu).lines_view() == menu_lines(old(menu).font_view().bitmap@, right_menu_text()),
{
    menu.reset();
    menu.println("Because most LPR-centered systems use automatic");
    menu.println("video/picture scanning, infrared (IR) light detectors");
    menu.println("can be used to report when such an LPR scans something.");
    menu.println("With a small enough form-factor, these detectors can");
    menu.println("be mounted directly on a vehicle's license plate");
    menu.println("(front or rear) to react to the event of TAPS scanning it.");
    menu.println("Upon activation, these devices can directly or");
    menu.println("indirectly signal out to a remote centralized system");
    menu.println("that aggregates all data, builds an activity hotspot");
    menu.println("timeline, and exposes a breakdown of TAPS activity");
    menu.println("by region.");
    menu.println("Crowd Sourcing");
    menu.println("Alone, such a device cannot possibly gather enough");
    menu.println("data to build such a chart in a cheap manner.");
    menu.println("The solution to this? The good people of Switzerland!");
    menu.println("Through the power of distributed intelligence,");
    menu.println("these devices can build a huge amount of space");
    menu.println("and time coverage, increasing reliability");
    menu.println("Phone Integration");
    menu.println("Furthermore, the device can communicate strictly");
    menu.println("with the user's phone, which can be paired");
    menu.println("upon activation when it comes to transmission.");
    menu.println("This has the following advantages:");
    menu.println("Privacy data like GPS location is sent only");
    menu.println("with user permission, protecting them from");
    menu.println("being tracked by the server if a breach occurs.");
    menu.println("The user can attach extra metadata such as");
    menu.println("exact parking garage, floor, or section.");
    menu.println("When a device detects an LPR scan, it can");
    menu.println("broadcast a ping to nearby devices, allowing");
    menu.println("them to warn their users they may want");
    menu.println("to re-park soon!");
    proof {
        assert(menu.lines_view() =~= menu_lines(old(menu).font_view().bitmap@, right_menu_text()));
    }
}

/// Refills both debug menus for a frame: each is reset, then the left one
/// shows the left menu text and the right one the right menu text, each line
/// on its own row from the top.
pub fn fill_debug_menus(left: &mut DebugMenu, right: &mut DebugMenu)
    ensures
        final(left).font_view() == old(left).font_view(),
        final(right).font_view() == old(right).font_view(),
        final(left).lines_view() == menu_lines(old(left).font_view().bitmap@, left_menu_text()),
        final(right).lines_view() == menu_lines(old(right).font_view().bitmap@, right_menu_text()),
{
    fill_left_menu(left);
    fill_right_menu(right);
}

} // verus!
