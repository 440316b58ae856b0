//! Working out how to show the contents of a file.
//!
//! This module never touches the disk. It takes a window of bytes and decides
//! what they are, turns them into text, and lays that text out in lines of a
//! given width. Keeping it separate from any reading means the awkward parts —
//! encodings, line endings, tabs, wrapping — are decided by plain functions
//! with plain tests, and the same answers serve the terminal and the GUI.
use vstd::prelude::*;
use vstd::utf8::*;
use vstd::arithmetic::div_mod::{lemma_fundamental_div_mod, lemma_fundamental_div_mod_converse};

use crate::text::{chars_of, push_char, string_of};

verus! {

/// How a file should be shown.
#[derive(Debug, Clone, Copy, PartialEq, Eq, Structural)]
pub enum Content {
    /// Readable text in this encoding.
    Text(Encoding),
    /// Not text: show a hex dump.
    Binary,
}

/// The encodings the viewer understands.
///
/// Deliberately few. Anything that isn't valid UTF-8 and isn't announced by a
/// byte-order mark is read as Latin-1, which maps every possible byte to some
/// character, so a file always shows *something* rather than an error.
#[derive(Debug, Clone, Copy, PartialEq, Eq, Structural)]
pub enum Encoding {
    Utf8,
    Utf16Le,
    Utf16Be,
    Latin1,
}

/// How many bytes are examined before deciding what a file is.
pub const SNIFF_BYTES: usize = 8192;

// ---------------------------------------------------------------------------------------------
// Deciding what the bytes are
// ---------------------------------------------------------------------------------------------

/// The byte-order mark that announces `encoding`, if it has one.
pub open spec fn mark_of(encoding: Encoding) -> Seq<u8> {
    match encoding {
        Encoding::Utf8 => seq![0xefu8, 0xbbu8, 0xbfu8],
        Encoding::Utf16Le => seq![0xffu8, 0xfeu8],
        Encoding::Utf16Be => seq![0xfeu8, 0xffu8],
        Encoding::Latin1 => Seq::empty(),
    }
}

pub open spec fn starts_with(b: Seq<u8>, mark: Seq<u8>) -> bool {
    mark.len() <= b.len() && b.take(mark.len() as int) == mark
}

/// `tail` is the start of some character's UTF-8 bytes, but not all of them.
pub open spec fn cut_character(tail: Seq<u8>) -> bool {
    exists|c: char|
        tail.len() < encode_utf8(seq![c]).len() && #[trigger] encode_utf8(seq![c]).take(tail.len() as int) == tail
}

/// What `std::str::from_utf8` reports as an error without an `error_len`: the
/// bytes are valid up to one to three bytes from their end, where a character
/// is cut short.
pub open spec fn utf8_ends_mid_character(bytes: Seq<u8>) -> bool {
    exists|k: int|
        0 <= k < bytes.len() && bytes.len() - k <= 3 && valid_utf8(bytes.take(k)) && #[trigger] cut_character(
            bytes.skip(k),
        )
}

/// How a run of bytes fares as UTF-8.
enum Utf8Check {
    Valid,
    CutShort,
    Invalid,
}

/// `std::str::from_utf8`, with its error told apart by `error_len`: whether the bytes
/// are valid UTF-8 (as vstd's `valid_utf8` defines it), and if not, whether the
/// only trouble is a character cut off at the end (`error_len` is `None`), as
/// `utf8_ends_mid_character` states it.
#[verifier::external_body]
fn check_utf8(bytes: &[u8]) -> (r: Utf8Check)
    ensures
        (r is Valid) == valid_utf8(bytes@),
        (r is CutShort) == (!valid_utf8(bytes@) && utf8_ends_mid_character(bytes@)),
{
    match std::str::from_utf8(bytes) {
        Ok(_) => Utf8Check::Valid,
        Err(problem) => match problem.error_len() {
            None => Utf8Check::CutShort,
            Some(_) => Utf8Check::Invalid,
        },
    }
}

/// How a file whose contents start with `b` is shown: a byte-order mark decides;
/// otherwise a zero byte in the first [`SNIFF_BYTES`] means binary, and those bytes
/// are UTF-8 when they are valid or only cut off mid-character, else Latin-1.
pub open spec fn sniff_spec(b: Seq<u8>) -> Content {
    if starts_with(b, mark_of(Encoding::Utf8)) {
        Content::Text(Encoding::Utf8)
    } else if starts_with(b, mark_of(Encoding::Utf16Le)) {
        Content::Text(Encoding::Utf16Le)
    } else if starts_with(b, mark_of(Encoding::Utf16Be)) {
        Content::Text(Encoding::Utf16Be)
    } else {
        let w = if b.len() <= SNIFF_BYTES {
            b
        } else {
            b.take(SNIFF_BYTES as int)
        };
        if w.contains(0u8) {
            Content::Binary
        } else if valid_utf8(w) || utf8_ends_mid_character(w) {
            Content::Text(Encoding::Utf8)
        } else {
            Content::Text(Encoding::Latin1)
        }
    }
}

/// Whether `b` starts with the bytes of `mark`.
fn has_prefix(b: &[u8], mark: &[u8]) -> (r: bool)
    ensures
        r == starts_with(b@, mark@),
{
    if mark.len() > b.len() {
        return false;
    }
    let mut i: usize = 0;
    while i < mark.len()
        invariant
            mark@.len() <= b@.len(),
            i <= mark@.len(),
            forall|k: int| 0 <= k < i ==> b@[k] == mark@[k],
        decreases mark@.len() - i,
    {
        if b[i] != mark[i] {
            assert(b@.take(mark@.len() as int)[i as int] != mark@[i as int]);
            return false;
        }
        i += 1;
    }
    assert(b@.take(mark@.len() as int) =~= mark@);
    true
}

/// The byte-order mark of `encoding`.
fn mark_bytes(encoding: Encoding) -> (r: Vec<u8>)
    ensures
        r@ == mark_of(encoding),
{
    let r: Vec<u8> = match encoding {
        Encoding::Utf8 => vec![0xefu8, 0xbbu8, 0xbfu8],
        Encoding::Utf16Le => vec![0xffu8, 0xfeu8],
        Encoding::Utf16Be => vec![0xfeu8, 0xffu8],
        Encoding::Latin1 => Vec::new(),
    };
    assert(r@ =~= mark_of(encoding));
    r
}

/// Decides how to show a file, from the start of its contents.
pub fn sniff(bytes: &[u8]) -> (r: Content)
    ensures
        r == sniff_spec(bytes@),
{
    if has_prefix(bytes, &mark_bytes(Encoding::Utf8)) {
        return Content::Text(Encoding::Utf8);
    }
    if has_prefix(bytes, &mark_bytes(Encoding::Utf16Le)) {
        return Content::Text(Encoding::Utf16Le);
    }
    if has_prefix(bytes, &mark_bytes(Encoding::Utf16Be)) {
        return Content::Text(Encoding::Utf16Be);
    }
    let n = if bytes.len() <= SNIFF_BYTES {
        bytes.len()
    } else {
        SNIFF_BYTES
    };
    let mut window: Vec<u8> = Vec::new();
    let mut i: usize = 0;
    let mut zero = false;
    while i < n
        invariant
            n <= bytes@.len(),
            i <= n,
            window@ == bytes@.take(i as int),
            zero == window@.contains(0u8),
        decreases n - i,
    {
        let ghost before = window@;
        if bytes[i] == 0 {
            zero = true;
        }
        window.push(bytes[i]);
        i += 1;
        proof {
            assert(window@ =~= bytes@.take(i as int));
            assert(window@ =~= before.push(bytes@[i - 1]));
            if window@.contains(0u8) {
                let k = choose|k: int| 0 <= k < window@.len() && window@[k] == 0u8;
                if k < before.len() {
                    assert(before[k] == 0u8);
                }
            }
            if before.contains(0u8) {
                let k = choose|k: int| 0 <= k < before.len() && before[k] == 0u8;
                assert(window@[k] == 0u8);
            }
            if bytes@[i - 1] == 0u8 {
                assert(window@[i - 1] == 0u8);
            }
        }
    }
    proof {
        if bytes@.len() <= SNIFF_BYTES {
            assert(bytes@.take(n as int) =~= bytes@);
        }
    }
    if zero {
        return Content::Binary;
    }
    match check_utf8(&window) {
        Utf8Check::Valid => Content::Text(Encoding::Utf8),
        // The window simply stops in the middle of a character, which says
        // nothing about the file.
        Utf8Check::CutShort => Content::Text(Encoding::Utf8),
        Utf8Check::Invalid => Content::Text(Encoding::Latin1),
    }
}

// ---------------------------------------------------------------------------------------------
// Turning bytes into text
// ---------------------------------------------------------------------------------------------

/// What `String::from_utf8_lossy` makes of `bytes`.
pub uninterp spec fn utf8_lossy(bytes: Seq<u8>) -> Seq<char>;

/// `String::from_utf8_lossy`: the text of `bytes` with every invalid sequence
/// replaced by U+FFFD. The contract names the result, and states what the
/// documentation promises of valid input: it comes back decoded as it is.
#[verifier::external_body]
fn lossy_utf8(bytes: &[u8]) -> (r: String)
    ensures
        r@ == utf8_lossy(bytes@),
        valid_utf8(bytes@) ==> r@ == decode_utf8(bytes@),
{
    String::from_utf8_lossy(bytes).into_owned()
}

/// `char::from_u32`: the character with this code point, if it is one.
#[verifier::external_body]
fn char_from_u32(v: u32) -> (r: Option<char>)
    ensures
        r == (if v <= 0xD7FF || (0xE000 <= v && v <= 0x10FFFF) {
            Some(v as char)
        } else {
            None
        }),
{
    char::from_u32(v)
}

/// `b` without the byte-order mark of `encoding` in front.
pub open spec fn strip_mark_spec(b: Seq<u8>, encoding: Encoding) -> Seq<u8> {
    if starts_with(b, mark_of(encoding)) {
        b.skip(mark_of(encoding).len() as int)
    } else {
        b
    }
}

/// Latin-1 is the first 256 code points, so every byte maps to a character.
pub open spec fn latin1(b: Seq<u8>) -> Seq<char> {
    b.map_values(|x: u8| x as char)
}

/// The `k`-th 16-bit unit of `b`, in the given byte order.
pub open spec fn unit16(b: Seq<u8>, k: int, little_endian: bool) -> u16 {
    if little_endian {
        (b[2 * k] + 256 * b[2 * k + 1]) as u16
    } else {
        (256 * b[2 * k] + b[2 * k + 1]) as u16
    }
}

/// The 16-bit units of `b`; a trailing odd byte is dropped.
pub open spec fn units16(b: Seq<u8>, little_endian: bool) -> Seq<u16> {
    Seq::new(b.len() / 2, |k: int| unit16(b, k, little_endian))
}

pub open spec fn is_high_surrogate(u: u16) -> bool {
    0xD800 <= u <= 0xDBFF
}

pub open spec fn is_low_surrogate(u: u16) -> bool {
    0xDC00 <= u <= 0xDFFF
}

/// UTF-16 decoding, as `char::decode_utf16` with every error turned into U+FFFD:
/// a unit outside the surrogates is its own character, a high surrogate followed by
/// a low one makes one character, and any other surrogate is an error.
pub open spec fn decode16(u: Seq<u16>) -> Seq<char>
    decreases u.len(),
{
    if u.len() == 0 {
        Seq::empty()
    } else if !is_high_surrogate(u[0]) && !is_low_surrogate(u[0]) {
        seq![u[0] as char] + decode16(u.drop_first())
    } else if is_high_surrogate(u[0]) && u.len() > 1 && is_low_surrogate(u[1]) {
        seq![(0x10000 + (u[0] - 0xD800) * 0x400 + (u[1] - 0xDC00)) as char] + decode16(u.skip(2))
    } else {
        seq!['\u{fffd}'] + decode16(u.drop_first())
    }
}

/// The text of `b` read in `encoding`, its byte-order mark left out.
pub open spec fn decode_spec(b: Seq<u8>, encoding: Encoding) -> Seq<char> {
    let body = strip_mark_spec(b, encoding);
    match encoding {
        Encoding::Utf8 => utf8_lossy(body),
        Encoding::Latin1 => latin1(body),
        Encoding::Utf16Le => decode16(units16(body, true)),
        Encoding::Utf16Be => decode16(units16(body, false)),
    }
}

/// `b` without the byte-order mark of `encoding` in front.
fn strip_mark(b: &[u8], encoding: Encoding) -> (r: Vec<u8>)
    ensures
        r@ == strip_mark_spec(b@, encoding),
{
    let mark = mark_bytes(encoding);
    let from = if has_prefix(b, &mark) {
        mark.len()
    } else {
        0
    };
    let mut r: Vec<u8> = Vec::new();
    let mut i = from;
    while i < b.len()
        invariant
            from <= i <= b@.len(),
            r@ == b@.subrange(from as int, i as int),
        decreases b@.len() - i,
    {
        r.push(b[i]);
        i += 1;
        assert(r@ =~= b@.subrange(from as int, i as int));
    }
    assert(r@ =~= strip_mark_spec(b@, encoding));
    r
}

/// Latin-1: each byte is the character with that code point.
fn latin1_text(b: &[u8]) -> (r: String)
    ensures
        r@ == latin1(b@),
{
    let mut r = String::new();
    let mut i: usize = 0;
    while i < b.len()
        invariant
            i <= b@.len(),
            r@ == latin1(b@.take(i as int)),
        decreases b@.len() - i,
    {
        push_char(&mut r, b[i] as char);
        i += 1;
        assert(r@ =~= latin1(b@.take(i as int)));
    }
    assert(b@.take(b@.len() as int) =~= b@);
    r
}

/// The 16-bit units of `b` in the given byte order.
fn units_of(b: &[u8], little_endian: bool) -> (r: Vec<u16>)
    ensures
        r@ == units16(b@, little_endian),
{
    let mut r: Vec<u16> = Vec::new();
    let mut k: usize = 0;
    let mut j: usize = 0;
    while j + 1 < b.len()
        invariant
            j == 2 * k,
            j <= b@.len(),
            k <= b@.len() / 2,
            r@ == units16(b@, little_endian).take(k as int),
        decreases b@.len() - j,
    {
        let first = b[j] as u16;
        let second = b[j + 1] as u16;
        let u: u16 = if little_endian {
            first + 256 * second
        } else {
            256 * first + second
        };
        r.push(u);
        k += 1;
        j += 2;
        assert(r@ =~= units16(b@, little_endian).take(k as int));
    }
    assert(k == b@.len() / 2);
    assert(units16(b@, little_endian).take(k as int) =~= units16(b@, little_endian));
    r
}

/// UTF-16 units to text, every error replaced by U+FFFD.
fn decode_units(u: &[u16]) -> (r: String)
    ensures
        r@ == decode16(u@),
{
    let mut r = String::new();
    let mut i: usize = 0;
    assert(u@.skip(0) =~= u@);
    assert(r@ + decode16(u@) =~= decode16(u@));
    while i < u.len()
        invariant
            i <= u@.len(),
            r@ + decode16(u@.skip(i as int)) == decode16(u@),
        decreases u@.len() - i,
    {
        let ghost rest = u@.skip(i as int);
        let a = u[i];
        if a < 0xD800 || a > 0xDFFF {
            let c = char_from_u32(a as u32);
            let ch = match c {
                Some(ch) => ch,
                None => '\u{fffd}',
            };
            push_char(&mut r, ch);
            i += 1;
            assert(rest.drop_first() =~= u@.skip(i as int));
        } else if a <= 0xDBFF && i + 1 < u.len() && 0xDC00 <= u[i + 1] && u[i + 1] <= 0xDFFF {
            let b = u[i + 1];
            let v: u32 = 0x10000 + ((a - 0xD800) as u32) * 0x400 + ((b - 0xDC00) as u32);
            let c = char_from_u32(v);
            let ch = match c {
                Some(ch) => ch,
                None => '\u{fffd}',
            };
            push_char(&mut r, ch);
            i += 2;
            assert(rest.skip(2) =~= u@.skip(i as int));
        } else {
            push_char(&mut r, '\u{fffd}');
            i += 1;
            assert(rest.drop_first() =~= u@.skip(i as int));
        }
    }
    assert(u@.skip(u@.len() as int) =~= Seq::<u16>::empty());
    r
}

/// Turns bytes into text, replacing anything that can't be decoded.
///
/// A byte-order mark at the start is removed: it announces the encoding, it
/// isn't part of the text.
pub fn decode(bytes: &[u8], encoding: Encoding) -> (r: String)
    ensures
        r@ == decode_spec(bytes@, encoding),
        encoding == Encoding::Utf8 && valid_utf8(strip_mark_spec(bytes@, encoding)) ==> r@ == decode_utf8(
            strip_mark_spec(bytes@, encoding),
        ),
{
    let body = strip_mark(bytes, encoding);
    match encoding {
        Encoding::Utf8 => lossy_utf8(&body),
        Encoding::Latin1 => latin1_text(&body),
        Encoding::Utf16Le => decode_units(&units_of(&body, true)),
        Encoding::Utf16Be => decode_units(&units_of(&body, false)),
    }
}

// ---------------------------------------------------------------------------------------------
// Laying text out in lines
// ---------------------------------------------------------------------------------------------

pub open spec fn is_eol(c: char) -> bool {
    c == '\n' || c == '\r'
}

/// Where the first line ending in `s` is.
pub open spec fn first_eol(s: Seq<char>) -> Option<int>
    decreases s.len(),
{
    if s.len() == 0 {
        None
    } else if is_eol(s[0]) {
        Some(0)
    } else {
        match first_eol(s.drop_first()) {
            Some(i) => Some(i + 1),
            None => None,
        }
    }
}

pub proof fn lemma_first_eol(s: Seq<char>)
    ensures
        first_eol(s) matches Some(i) ==> 0 <= i < s.len() && is_eol(s[i]) && forall|k: int|
            0 <= k < i ==> !is_eol(#[trigger] s[k]),
        first_eol(s) is None ==> forall|k: int| 0 <= k < s.len() ==> !is_eol(#[trigger] s[k]),
    decreases s.len(),
{
    if s.len() > 0 {
        lemma_first_eol(s.drop_first());
        assert forall|k: int| 0 < k < s.len() implies s[k] == s.drop_first()[k - 1] by {}
    }
}

/// How long the line ending at `i` is: CRLF is one ending of two characters.
pub open spec fn eol_len(s: Seq<char>, i: int) -> int {
    if s[i] == '\r' && i + 1 < s.len() && s[i + 1] == '\n' {
        2
    } else {
        1
    }
}

/// The lines of `s`: split at LF, CRLF or CR, a line ending ending a line rather
/// than starting an empty one, so text that ends with one has no phantom last line.
pub open spec fn split_lines_spec(s: Seq<char>) -> Seq<Seq<char>>
    decreases s.len(),
{
    if s.len() == 0 {
        Seq::empty()
    } else {
        match first_eol(s) {
            None => seq![s],
            Some(i) => {
                proof {
                    lemma_first_eol(s);
                }
                seq![s.take(i)] + split_lines_spec(s.skip(i + eol_len(s, i)))
            },
        }
    }
}

/// `n` spaces.
pub open spec fn spaces(n: int) -> Seq<char> {
    Seq::new(n as nat, |k: int| ' ')
}

/// The characters of `s` with each tab replaced by spaces up to the next multiple
/// of `tw`, counting columns from `col`.
pub open spec fn expand_from(s: Seq<char>, col: int, tw: int) -> Seq<char>
    decreases s.len(),
{
    if s.len() == 0 {
        Seq::empty()
    } else if s[0] == '\t' {
        let n = tw - col % tw;
        spaces(n) + expand_from(s.drop_first(), col + n, tw)
    } else {
        seq![s[0]] + expand_from(s.drop_first(), col + 1, tw)
    }
}

/// A line with its tabs expanded; a tab width of 0 counts as 1.
pub open spec fn expand_tabs_spec(line: Seq<char>, tab_width: int) -> Seq<char> {
    expand_from(line, 0, if tab_width < 1 { 1 } else { tab_width })
}

/// A line cut into pieces of `w` characters, the last one possibly shorter.
pub open spec fn chunks(s: Seq<char>, w: int) -> Seq<Seq<char>>
    decreases s.len(),
{
    if s.len() <= w || w <= 0 {
        seq![s]
    } else {
        seq![s.take(w)] + chunks(s.skip(w), w)
    }
}

/// The screen lines of one text line.
pub open spec fn screen_lines(line: Seq<char>, width: Option<usize>, tab_width: int) -> Seq<Seq<char>> {
    let e = expand_tabs_spec(line, tab_width);
    match width {
        Some(w) => if w > 0 {
            chunks(e, w as int)
        } else {
            seq![e]
        },
        None => seq![e],
    }
}

/// All screen lines of the lines in `lines`, in order.
pub open spec fn lay_out_lines(lines: Seq<Seq<char>>, width: Option<usize>, tab_width: int) -> Seq<Seq<char>>
    decreases lines.len(),
{
    if lines.len() == 0 {
        Seq::empty()
    } else {
        screen_lines(lines[0], width, tab_width) + lay_out_lines(lines.drop_first(), width, tab_width)
    }
}

/// What [`lay_out`] gives for `text`.
pub open spec fn lay_out_spec(text: Seq<char>, width: Option<usize>, tab_width: int) -> Seq<Seq<char>> {
    lay_out_lines(split_lines_spec(text), width, tab_width)
}

pub open spec fn texts(v: Seq<String>) -> Seq<Seq<char>> {
    v.map_values(|s: String| s@)
}

/// The lines of `s`.
fn split_lines(s: &[char]) -> (r: Vec<Vec<char>>)
    ensures
        r@.map_values(|v: Vec<char>| v@) == split_lines_spec(s@),
{
    let mut lines: Vec<Vec<char>> = Vec::new();
    let mut start: usize = 0;
    let mut at: usize = 0;
    let mut cur: Vec<char> = Vec::new();
    assert(s@.skip(0) =~= s@);
    assert(lines@.map_values(|v: Vec<char>| v@) =~= Seq::<Seq<char>>::empty());
    assert(Seq::<Seq<char>>::empty() + split_lines_spec(s@) =~= split_lines_spec(s@));
    assert(cur@ =~= s@.subrange(0, 0));
    while at < s.len()
        invariant
            start <= at <= s@.len(),
            cur@ == s@.subrange(start as int, at as int),
            forall|k: int| start <= k < at ==> !is_eol(#[trigger] s@[k]),
            lines@.map_values(|v: Vec<char>| v@) + split_lines_spec(s@.skip(start as int))
                == split_lines_spec(s@),
        decreases s@.len() - at,
    {
        let c = s[at];
        if c == '\n' || c == '\r' {
            let ghost t = s@.skip(start as int);
            let step: usize = if c == '\r' && at + 1 < s.len() && s[at + 1] == '\n' {
                2
            } else {
                1
            };
            proof {
                lemma_first_eol(t);
                let j = (at - start) as int;
                assert(t[j] == c);
                assert forall|k: int| 0 <= k < j implies !is_eol(#[trigger] t[k]) by {
                    assert(t[k] == s@[start + k]);
                }
                if let Some(i) = first_eol(t) {
                    if i < j {
                        assert(t[i] == s@[start + i]);
                    }
                    assert(i == j);
                }
                assert(eol_len(t, j) == step);
                assert(t.take(j) =~= cur@);
                assert(t.skip(j + step) =~= s@.skip(at + step));
            }
            let ghost before = lines@.map_values(|v: Vec<char>| v@);
            let ghost piece = cur@;
            let ghost after_t = t.skip((at - start) + step);
            lines.push(cur);
            cur = Vec::new();
            at += step;
            start = at;
            proof {
                assert(lines@.map_values(|v: Vec<char>| v@) =~= before.push(piece));
                assert(split_lines_spec(t) == seq![piece] + split_lines_spec(after_t));
                assert(after_t =~= s@.skip(start as int));
                assert(before.push(piece) + split_lines_spec(after_t) =~= before + (seq![piece]
                    + split_lines_spec(after_t)));
                assert(cur@ =~= s@.subrange(start as int, at as int));
            }
        } else {
            cur.push(c);
            at += 1;
            assert(cur@ =~= s@.subrange(start as int, at as int));
        }
    }
    let ghost t = s@.skip(start as int);
    proof {
        lemma_first_eol(t);
        assert forall|k: int| 0 <= k < t.len() implies !is_eol(#[trigger] t[k]) by {
            assert(t[k] == s@[start + k]);
        }
        if let Some(i) = first_eol(t) {
            assert(t[i] == s@[start + i]);
        }
    }
    if start < s.len() {
        let ghost before = lines@.map_values(|v: Vec<char>| v@);
        lines.push(cur);
        proof {
            assert(cur@ =~= t);
            assert(lines@.map_values(|v: Vec<char>| v@) =~= before.push(t));
        }
    } else {
        assert(t.len() == 0);
    }
    proof {
        assert(lines@.map_values(|v: Vec<char>| v@) =~= split_lines_spec(s@));
    }
    lines
}

/// Replaces tabs with spaces up to the next tab stop, so columns line up.
fn expand_tabs(line: &[char], tab_width: usize) -> (r: Vec<char>)
    ensures
        r@ == expand_tabs_spec(line@, tab_width as int),
{
    let tw: usize = if tab_width < 1 {
        1
    } else {
        tab_width
    };
    let mut out: Vec<char> = Vec::new();
    // The column, counted modulo the tab width: all a tab stop needs.
    let mut at_stop: usize = 0;
    let mut i: usize = 0;
    let ghost mut col: int = 0;
    assert(line@.skip(0) =~= line@);
    assert(out@ + expand_from(line@, 0, tw as int) =~= expand_from(line@, 0, tw as int));
    while i < line.len()
        invariant
            tw >= 1,
            tw as int == (if tab_width < 1 { 1 } else { tab_width as int }),
            i <= line@.len(),
            col >= 0,
            at_stop == col % (tw as int),
            out@ + expand_from(line@.skip(i as int), col, tw as int) == expand_tabs_spec(
                line@,
                tab_width as int,
            ),
        decreases line@.len() - i,
    {
        let ghost rest = line@.skip(i as int);
        let ghost before = out@;
        let ghost col0 = col;
        let c = line[i];
        proof {
            assert(col0 % (tw as int) < tw as int) by (nonlinear_arith)
                requires
                    tw >= 1,
                    col0 >= 0,
            ;
        }
        if c == '\t' {
            let n = tw - at_stop;
            let mut k: usize = 0;
            assert(out@ =~= before + spaces(0));
            while k < n
                invariant
                    k <= n,
                    out@ == before + spaces(k as int),
                decreases n - k,
            {
                out.push(' ');
                k += 1;
                assert(out@ =~= before + spaces(k as int));
            }
            proof {
                assert((col0 + (tw - col0 % (tw as int))) % (tw as int) == 0) by (nonlinear_arith)
                    requires
                        tw >= 1,
                        col0 >= 0,
                ;
                col = col0 + n;
                assert(expand_from(rest, col0, tw as int) == spaces(n as int) + expand_from(
                    rest.drop_first(),
                    col,
                    tw as int,
                ));
                assert(out@ + expand_from(rest.drop_first(), col, tw as int) =~= before + (spaces(
                    n as int,
                ) + expand_from(rest.drop_first(), col, tw as int)));
            }
            at_stop = 0;
        } else {
            out.push(c);
            proof {
                assert((col0 + 1) % (tw as int) == (if col0 % (tw as int) + 1 == tw as int {
                    0
                } else {
                    col0 % (tw as int) + 1
                })) by (nonlinear_arith)
                    requires
                        tw >= 1,
                        col0 >= 0,
                ;
                col = col0 + 1;
                assert(out@ =~= before.push(c));
                assert(out@ + expand_from(rest.drop_first(), col, tw as int) =~= before + (seq![c]
                    + expand_from(rest.drop_first(), col, tw as int)));
            }
            at_stop = if at_stop + 1 == tw {
                0
            } else {
                at_stop + 1
            };
        }
        i += 1;
        assert(rest.drop_first() =~= line@.skip(i as int));
    }
    assert(line@.skip(i as int) =~= Seq::<char>::empty());
    assert(out@ + Seq::<char>::empty() =~= out@);
    out
}

/// Appends the pieces of `e` cut every `w` characters.
fn push_chunks(out: &mut Vec<String>, e: &[char], w: usize)
    requires
        w > 0,
    ensures
        texts(final(out)@) == texts(old(out)@) + chunks(e@, w as int),
{
    let ghost first = texts(out@);
    let mut start: usize = 0;
    assert(e@.skip(0) =~= e@);
    assert(texts(out@) + chunks(e@, w as int) =~= first + chunks(e@, w as int));
    while e.len() - start > w
        invariant
            w > 0,
            start <= e@.len(),
            texts(out@) + chunks(e@.skip(start as int), w as int) == first + chunks(e@, w as int),
        decreases e@.len() - start,
    {
        let ghost rest = e@.skip(start as int);
        let ghost before = texts(out@);
        let piece = string_of(&slice_chars(e, start, start + w));
        out.push(piece);
        start += w;
        proof {
            assert(rest.take(w as int) =~= piece@);
            assert(rest.skip(w as int) =~= e@.skip(start as int));
            assert(texts(out@) =~= before.push(piece@));
            assert(texts(out@) + chunks(e@.skip(start as int), w as int) =~= before + (seq![piece@]
                + chunks(e@.skip(start as int), w as int)));
        }
    }
    let ghost before = texts(out@);
    let last = string_of(&slice_chars(e, start, e.len()));
    out.push(last);
    proof {
        assert(last@ =~= e@.skip(start as int));
        assert(texts(out@) =~= before.push(last@));
        assert(texts(out@) =~= before + chunks(e@.skip(start as int), w as int));
    }
}

/// The characters `s[from..to]`.
fn slice_chars(s: &[char], from: usize, to: usize) -> (r: Vec<char>)
    requires
        from <= to <= s@.len(),
    ensures
        r@ == s@.subrange(from as int, to as int),
{
    let mut r: Vec<char> = Vec::new();
    let mut i = from;
    while i < to
        invariant
            from <= i <= to <= s@.len(),
            r@ == s@.subrange(from as int, i as int),
        decreases to - i,
    {
        r.push(s[i]);
        i += 1;
        assert(r@ =~= s@.subrange(from as int, i as int));
    }
    r
}

/// Splits text into the lines to put on screen.
///
/// Line endings may be LF, CRLF or CR. Tabs are expanded to the next multiple
/// of `tab_width`. When `width` is `Some`, long lines are wrapped at that many
/// characters; when it's `None` they are left whole for the UI to scroll.
pub fn lay_out(text: &str, width: Option<usize>, tab_width: usize) -> (r: Vec<String>)
    ensures
        texts(r@) == lay_out_spec(text@, width, tab_width as int),
{
    let chars = chars_of(text);
    let lines = split_lines(&chars);
    let ghost all = lines@.map_values(|v: Vec<char>| v@);
    let mut out: Vec<String> = Vec::new();
    let mut i: usize = 0;
    assert(all.skip(0) =~= all);
    assert(texts(out@) + lay_out_lines(all, width, tab_width as int) =~= lay_out_lines(
        all,
        width,
        tab_width as int,
    ));
    while i < lines.len()
        invariant
            i <= lines@.len(),
            all == lines@.map_values(|v: Vec<char>| v@),
            all == split_lines_spec(text@),
            texts(out@) + lay_out_lines(all.skip(i as int), width, tab_width as int) == lay_out_lines(
                all,
                width,
                tab_width as int,
            ),
        decreases lines@.len() - i,
    {
        let ghost rest = all.skip(i as int);
        let ghost before = texts(out@);
        let line = expand_tabs(&lines[i], tab_width);
        assert(rest[0] == lines@[i as int]@);
        match width {
            Some(w) if w > 0 => {
                push_chunks(&mut out, &line, w);
            },
            _ => {
                let whole = string_of(&line);
                out.push(whole);
                assert(texts(out@) =~= before + seq![whole@]);
            },
        }
        i += 1;
        proof {
            assert(rest.drop_first() =~= all.skip(i as int));
            assert(texts(out@) + lay_out_lines(all.skip(i as int), width, tab_width as int) =~= before
                + (screen_lines(rest[0], width, tab_width as int) + lay_out_lines(
                rest.drop_first(),
                width,
                tab_width as int,
            )));
        }
    }
    assert(all.skip(i as int) =~= Seq::<Seq<char>>::empty());
    assert(texts(out@) + Seq::<Seq<char>>::empty() =~= texts(out@));
    out
}

// ---------------------------------------------------------------------------------------------
// Hex dumps
// ---------------------------------------------------------------------------------------------

/// One row of a hex dump.
#[derive(Debug, Clone, PartialEq, Eq)]
pub struct HexRow {
    /// Offset of the first byte, counted from the start of the file.
    pub offset: u64,
    pub bytes: Vec<u8>,
}

/// How a byte shows in the text column: printable ASCII as itself, anything else
/// as a dot.
pub open spec fn shown_as(b: u8) -> char {
    if 0x20 <= b <= 0x7e {
        b as char
    } else {
        '.'
    }
}

impl HexRow {
    /// The right-hand column: printable ASCII, everything else a dot.
    pub fn text(&self) -> (r: String)
        ensures
            r@ == self.bytes@.map_values(|b: u8| shown_as(b)),
    {
        let mut r = String::new();
        let mut i: usize = 0;
        while i < self.bytes.len()
            invariant
                i <= self.bytes@.len(),
                r@ == self.bytes@.take(i as int).map_values(|b: u8| shown_as(b)),
            decreases self.bytes@.len() - i,
        {
            let b = self.bytes[i];
            let c = if 0x20 <= b && b <= 0x7e {
                b as char
            } else {
                '.'
            };
            push_char(&mut r, c);
            i += 1;
            assert(r@ =~= self.bytes@.take(i as int).map_values(|b: u8| shown_as(b)));
        }
        assert(self.bytes@.take(i as int) =~= self.bytes@);
        r
    }
}

/// The rows of a dump of `b` whose first byte sits at offset `start`: `per` bytes a
/// row, the last one possibly shorter, as (offset, bytes).
pub open spec fn hex_rows_spec(b: Seq<u8>, start: int, per: int) -> Seq<(int, Seq<u8>)>
    decreases b.len(),
{
    if b.len() == 0 || per <= 0 {
        Seq::empty()
    } else {
        let k = if b.len() < per {
            b.len() as int
        } else {
            per
        };
        seq![(start, b.take(k))] + hex_rows_spec(b.skip(k), start + k, per)
    }
}

pub open spec fn row_views(rows: Seq<HexRow>) -> Seq<(int, Seq<u8>)> {
    rows.map_values(|h: HexRow| (h.offset as int, h.bytes@))
}

/// Splits bytes into hex-dump rows, the first one starting at `start`. A row width
/// of 0 counts as 1.
pub fn hex_rows(bytes: &[u8], start: u64, per_row: usize) -> (r: Vec<HexRow>)
    requires
        bytes@.len() == 0 || start + bytes@.len() - 1 <= u64::MAX,
    ensures
        row_views(r@) == hex_rows_spec(bytes@, start as int, if per_row < 1 { 1 } else { per_row as int }),
{
    let per: usize = if per_row < 1 {
        1
    } else {
        per_row
    };
    let ghost p = per as int;
    let mut rows: Vec<HexRow> = Vec::new();
    let mut at: usize = 0;
    assert(bytes@.skip(0) =~= bytes@);
    assert(row_views(rows@) + hex_rows_spec(bytes@, start as int, p) =~= hex_rows_spec(bytes@, start as int, p));
    while at < bytes.len()
        invariant
            p == per as int,
            per >= 1,
            at <= bytes@.len(),
            bytes@.len() == 0 || start + bytes@.len() - 1 <= u64::MAX,
            row_views(rows@) + hex_rows_spec(bytes@.skip(at as int), start + at, p) == hex_rows_spec(
                bytes@,
                start as int,
                p,
            ),
        decreases bytes@.len() - at,
    {
        let ghost rest = bytes@.skip(at as int);
        let ghost before = row_views(rows@);
        let left = bytes.len() - at;
        let k = if left < per {
            left
        } else {
            per
        };
        let mut chunk: Vec<u8> = Vec::new();
        let mut q: usize = 0;
        let n = bytes.len();
        while q < k
            invariant
                n == bytes@.len(),
                q <= k,
                at + k <= bytes@.len(),
                chunk@ == bytes@.subrange(at as int, at + q),
            decreases k - q,
        {
            chunk.push(bytes[at + q]);
            q += 1;
            assert(chunk@ =~= bytes@.subrange(at as int, at + q));
        }
        let offset = start + at as u64;
        rows.push(HexRow { offset, bytes: chunk });
        at += k;
        proof {
            assert(rest.take(k as int) =~= bytes@.subrange((at - k) as int, at as int));
            assert(rest.skip(k as int) =~= bytes@.skip(at as int));
            assert(row_views(rows@) =~= before.push((offset as int, rows@[rows@.len() - 1].bytes@)));
            assert(row_views(rows@) + hex_rows_spec(bytes@.skip(at as int), start + at, p) =~= before
                + (seq![(start + (at - k), rest.take(k as int))] + hex_rows_spec(
                rest.skip(k as int),
                start + (at - k) + k,
                p,
            )));
        }
    }
    assert(bytes@.skip(at as int) =~= Seq::<u8>::empty());
    assert(row_views(rows@) + Seq::<(int, Seq<u8>)>::empty() =~= row_views(rows@));
    rows
}

} // verus!

verus! {

// ---------------------------------------------------------------------------------------------
// What wrapping keeps
// ---------------------------------------------------------------------------------------------

/// Cutting a line into pieces of `w` characters loses nothing, and no piece is longer than `w`.
pub proof fn lemma_chunks(s: Seq<char>, w: int)
    requires
        w > 0,
    ensures
        chunks(s, w).flatten() == s,
        forall|i: int| 0 <= i < chunks(s, w).len() ==> (#[trigger] chunks(s, w)[i]).len() <= w,
    decreases s.len(),
{
    let c = chunks(s, w);
    if s.len() <= w {
        assert(c.drop_first() =~= Seq::<Seq<char>>::empty());
        assert(c.drop_first().flatten() =~= Seq::<char>::empty());
        assert(c.first() == s);
        assert(c.flatten() =~= s + Seq::<char>::empty());
    } else {
        lemma_chunks(s.skip(w), w);
        let rest = chunks(s.skip(w), w);
        assert(c.drop_first() =~= rest);
        assert(c.first() == s.take(w));
        assert(s.take(w) + s.skip(w) =~= s);
        assert forall|i: int| 0 <= i < c.len() implies (#[trigger] c[i]).len() <= w by {
            if i > 0 {
                assert(c[i] == rest[i - 1]);
            }
        }
    }
}

/// Lines laid out with a width never run past it.
pub proof fn lemma_lay_out_fits(lines: Seq<Seq<char>>, w: usize, tab_width: int)
    requires
        w > 0,
    ensures
        forall|i: int|
            0 <= i < lay_out_lines(lines, Some(w), tab_width).len() ==> (#[trigger] lay_out_lines(
                lines,
                Some(w),
                tab_width,
            )[i]).len() <= w,
    decreases lines.len(),
{
    if lines.len() > 0 {
        lemma_lay_out_fits(lines.drop_first(), w, tab_width);
        let e = expand_tabs_spec(lines[0], tab_width);
        lemma_chunks(e, w as int);
        let a = screen_lines(lines[0], Some(w), tab_width);
        let b = lay_out_lines(lines.drop_first(), Some(w), tab_width);
        assert forall|i: int| 0 <= i < (a + b).len() implies (#[trigger] (a + b)[i]).len() <= w by {
            if i >= a.len() {
                assert((a + b)[i] == b[i - a.len()]);
            }
        }
    }
}

/// With a width, every screen line of a text fits in it.
pub proof fn lemma_wrapped_text_fits(text: Seq<char>, w: usize, tab_width: int)
    requires
        w > 0,
    ensures
        forall|i: int|
            0 <= i < lay_out_spec(text, Some(w), tab_width).len() ==> (#[trigger] lay_out_spec(
                text,
                Some(w),
                tab_width,
            )[i]).len() <= w,
{
    lemma_lay_out_fits(split_lines_spec(text), w, tab_width);
}

/// Without a width, each text line is one screen line, its tabs expanded.
pub proof fn lemma_unwrapped_lines(lines: Seq<Seq<char>>, tab_width: int)
    ensures
        lay_out_lines(lines, None, tab_width) == lines.map_values(|l: Seq<char>| expand_tabs_spec(l, tab_width)),
    decreases lines.len(),
{
    if lines.len() > 0 {
        lemma_unwrapped_lines(lines.drop_first(), tab_width);
        assert(lay_out_lines(lines, None, tab_width) =~= lines.map_values(
            |l: Seq<char>| expand_tabs_spec(l, tab_width),
        ));
    } else {
        assert(lay_out_lines(lines, None, tab_width) =~= lines.map_values(
            |l: Seq<char>| expand_tabs_spec(l, tab_width),
        ));
    }
}

} // verus!

verus! {

/// The bytes of each row of a dump, in order.
pub open spec fn row_bytes(rows: Seq<(int, Seq<u8>)>) -> Seq<Seq<u8>> {
    rows.map_values(|r: (int, Seq<u8>)| r.1)
}

/// A dump shows every byte once, in order, no row holds more than `per` bytes, and
/// each row's offset is where its first byte sits in the file.
pub proof fn lemma_hex_rows(b: Seq<u8>, start: int, per: int)
    requires
        per > 0,
    ensures
        row_bytes(hex_rows_spec(b, start, per)).flatten() == b,
        forall|i: int|
            0 <= i < hex_rows_spec(b, start, per).len() ==> {
                let r = #[trigger] hex_rows_spec(b, start, per)[i];
                &&& 0 < r.1.len() <= per
                &&& start <= r.0
                &&& r.0 - start + r.1.len() <= b.len()
                &&& b.subrange(r.0 - start, r.0 - start + r.1.len()) == r.1
            },
    decreases b.len(),
{
    let rows = hex_rows_spec(b, start, per);
    if b.len() == 0 {
        assert(row_bytes(rows) =~= Seq::<Seq<u8>>::empty());
        assert(b =~= Seq::<u8>::empty());
    } else {
        let k = if b.len() < per {
            b.len() as int
        } else {
            per
        };
        let tail = b.skip(k);
        lemma_hex_rows(tail, start + k, per);
        let rest = hex_rows_spec(tail, start + k, per);
        assert(rows == seq![(start, b.take(k))] + rest);
        assert(row_bytes(rows).drop_first() =~= row_bytes(rest));
        assert(row_bytes(rows).first() == b.take(k));
        assert(b.take(k) + tail =~= b);
        assert forall|i: int| 0 <= i < rows.len() implies {
            let r = #[trigger] rows[i];
            &&& 0 < r.1.len() <= per
            &&& start <= r.0
            &&& r.0 - start + r.1.len() <= b.len()
            &&& b.subrange(r.0 - start, r.0 - start + r.1.len()) == r.1
        } by {
            if i == 0 {
                assert(b.subrange(0, k) =~= b.take(k));
            } else {
                let r = rest[i - 1];
                assert(rows[i] == r);
                assert(b.subrange(r.0 - start, r.0 - start + r.1.len()) =~= tail.subrange(
                    r.0 - (start + k),
                    r.0 - (start + k) + r.1.len(),
                ));
            }
        }
    }
}

} // verus!

verus! {

// ---------------------------------------------------------------------------------------------
// Tab stops
// ---------------------------------------------------------------------------------------------

/// After a tab, the column is a tab stop.
proof fn lemma_tab_lands_on_stop(s: Seq<char>, col: int, tw: int)
    requires
        tw >= 1,
        col >= 0,
        s.len() > 0,
        s.last() == '\t',
    ensures
        (col + expand_from(s, col, tw).len()) % tw == 0,
    decreases s.len(),
{
    let head_len = if s[0] == '\t' { tw - col % tw } else { 1 };
    assert(0 <= col % tw < tw) by (nonlinear_arith)
        requires
            tw >= 1,
    ;
    if s[0] == '\t' {
        assert(spaces(tw - col % tw).len() == tw - col % tw);
    }
    assert(expand_from(s, col, tw).len() == head_len + expand_from(s.drop_first(), col + head_len, tw).len());
    if s.len() == 1 {
        assert(s[0] == '\t');
        assert(expand_from(s.drop_first(), col + head_len, tw).len() == 0);
        lemma_fundamental_div_mod(col, tw);
        assert((col / tw + 1) * tw == tw * (col / tw) + tw) by (nonlinear_arith);
        lemma_fundamental_div_mod_converse(col + head_len, tw, col / tw + 1, 0);
    } else {
        assert(s.drop_first().last() == '\t');
        lemma_tab_lands_on_stop(s.drop_first(), col + head_len, tw);
    }
}

/// Expanding a line's beginning gives the beginning of its expansion.
proof fn lemma_expand_prefix(s: Seq<char>, j: int, col: int, tw: int)
    requires
        0 <= j <= s.len(),
    ensures
        expand_from(s.take(j), col, tw).len() <= expand_from(s, col, tw).len(),
        expand_from(s, col, tw).take(expand_from(s.take(j), col, tw).len() as int) == expand_from(s.take(j), col, tw),
    decreases s.len(),
{
    if j == 0 {
        assert(s.take(0) =~= Seq::<char>::empty());
        assert(expand_from(s, col, tw).take(0) =~= Seq::<char>::empty());
    } else {
        let head = if s[0] == '\t' { spaces(tw - col % tw) } else { seq![s[0]] };
        let next = if s[0] == '\t' { col + (tw - col % tw) } else { col + 1 };
        lemma_expand_prefix(s.drop_first(), j - 1, next, tw);
        assert(s.take(j).drop_first() =~= s.drop_first().take(j - 1));
        assert(s.take(j)[0] == s[0]);
        let a = expand_from(s.drop_first().take(j - 1), next, tw);
        let b = expand_from(s.drop_first(), next, tw);
        assert(expand_from(s.take(j), col, tw) == head + a);
        assert(expand_from(s, col, tw) == head + b);
        assert((head + b).take((head + a).len() as int) =~= head + a);
    }
}

/// No tab survives expansion.
proof fn lemma_no_tabs_left(s: Seq<char>, col: int, tw: int)
    ensures
        !expand_from(s, col, tw).contains('\t'),
    decreases s.len(),
{
    if s.len() > 0 {
        let head = if s[0] == '\t' { spaces(tw - col % tw) } else { seq![s[0]] };
        let next = if s[0] == '\t' { col + (tw - col % tw) } else { col + 1 };
        lemma_no_tabs_left(s.drop_first(), next, tw);
        let rest = expand_from(s.drop_first(), next, tw);
        assert(expand_from(s, col, tw) == head + rest);
        if (head + rest).contains('\t') {
            let k = choose|k: int| 0 <= k < (head + rest).len() && (head + rest)[k] == '\t';
            if k >= head.len() {
                assert(rest[k - head.len()] == '\t');
            }
        }
    }
}

/// Tabs are replaced by spaces up to the next tab stop, so columns line up:
/// whatever follows a tab starts at a multiple of the tab width, and no tab is
/// left.
pub proof fn lemma_tabs_line_up(line: Seq<char>, tab_width: int, k: int)
    requires
        tab_width >= 1,
        0 <= k < line.len(),
        line[k] == '\t',
    ensures
        (expand_tabs_spec(line.take(k + 1), tab_width).len() as int) % tab_width == 0,
        expand_tabs_spec(line, tab_width).take(expand_tabs_spec(line.take(k + 1), tab_width).len() as int)
            == expand_tabs_spec(line.take(k + 1), tab_width),
        !expand_tabs_spec(line, tab_width).contains('\t'),
{
    assert(line.take(k + 1).last() == '\t');
    lemma_tab_lands_on_stop(line.take(k + 1), 0, tab_width);
    lemma_expand_prefix(line, k + 1, 0, tab_width);
    lemma_no_tabs_left(line, 0, tab_width);
}

} // verus!
