//! Sorting directory listings the way a file manager shows them.
use vstd::prelude::*;
use std::cmp::Ordering;

use crate::entry::{lemma_rfind, rfind, spec_extension, spec_stem, Entry, EntryKind, EntryV};
use crate::text::{char_lowercase, chars_of, lowercase_of};
use crate::vpath::is_ascii_digit;

verus! {

/// Which column to sort by (the columns of a Total Commander panel).
#[derive(Debug, Clone, Copy, PartialEq, Eq, Structural, Default)]
pub enum SortKey {
    #[default]
    Name,
    Extension,
    Size,
    Modified,
}

#[derive(Debug, Clone, Copy, PartialEq, Eq, Structural, Default)]
pub enum SortOrder {
    #[default]
    Ascending,
    Descending,
}

#[derive(Debug, Clone, Copy, PartialEq, Eq, Structural)]
pub struct SortSpec {
    pub key: SortKey,
    pub order: SortOrder,
    /// Keep folders above files regardless of order, like every classic file manager.
    pub dirs_first: bool,
}

impl Default for SortSpec {
    fn default() -> (r: Self)
        ensures
            r == (SortSpec { key: SortKey::Name, order: SortOrder::Ascending, dirs_first: true }),
    {
        SortSpec { key: SortKey::Name, order: SortOrder::Ascending, dirs_first: true }
    }
}

// ---------------------------------------------------------------------------------------------
// The order, as mathematics. Every order below is -1, 0 or 1.
// ---------------------------------------------------------------------------------------------

/// Plain lexicographic order of two character sequences, by code point. (The
/// byte order of UTF-8 text is the same order.)
pub open spec fn order_chars(a: Seq<char>, b: Seq<char>) -> int
    decreases a.len(),
{
    if a.len() == 0 {
        if b.len() == 0 {
            0
        } else {
            -1
        }
    } else if b.len() == 0 {
        1
    } else if a[0] < b[0] {
        -1
    } else if a[0] > b[0] {
        1
    } else {
        order_chars(a.drop_first(), b.drop_first())
    }
}

/// Where the run of ASCII digits that starts at `i` ends.
pub open spec fn digit_run(s: Seq<char>, i: int) -> int
    decreases s.len() - i,
{
    if 0 <= i < s.len() && is_ascii_digit(s[i]) {
        digit_run(s, i + 1)
    } else {
        i
    }
}

/// `s` without its leading zeros.
pub open spec fn strip_zeros(s: Seq<char>) -> Seq<char>
    decreases s.len(),
{
    if s.len() > 0 && s[0] == '0' {
        strip_zeros(s.drop_first())
    } else {
        s
    }
}

/// Two digit strings ordered by numeric value: fewer significant digits first,
/// then digit by digit.
pub open spec fn order_numbers(a: Seq<char>, b: Seq<char>) -> int {
    let x = strip_zeros(a);
    let y = strip_zeros(b);
    if x.len() < y.len() {
        -1
    } else if x.len() > y.len() {
        1
    } else {
        order_chars(x, y)
    }
}

pub proof fn lemma_digit_run(s: Seq<char>, i: int)
    requires
        0 <= i <= s.len(),
    ensures
        i <= digit_run(s, i) <= s.len(),
        i < s.len() && is_ascii_digit(s[i]) ==> i < digit_run(s, i),
        forall|k: int| i <= k < digit_run(s, i) ==> is_ascii_digit(#[trigger] s[k]),
        digit_run(s, i) < s.len() ==> !is_ascii_digit(s[digit_run(s, i)]),
    decreases s.len() - i,
{
    if i < s.len() && is_ascii_digit(s[i]) {
        lemma_digit_run(s, i + 1);
    }
}

/// Natural order of `a` and `b`, going on from position `i` of `a` and `j` of `b`.
pub open spec fn natural_from(a: Seq<char>, b: Seq<char>, i: int, j: int) -> int
    decreases (a.len() - i) + (b.len() - j),
{
    if i < 0 || j < 0 || i > a.len() || j > b.len() {
        0
    } else if i == a.len() && j == b.len() {
        order_chars(a, b)
    } else if i == a.len() {
        -1
    } else if j == b.len() {
        1
    } else if is_ascii_digit(a[i]) && is_ascii_digit(b[j]) {
        let ea = digit_run(a, i);
        let eb = digit_run(b, j);
        let o = order_numbers(a.subrange(i, ea), b.subrange(j, eb));
        if o != 0 {
            o
        } else {
            proof {
                lemma_digit_run(a, i);
                lemma_digit_run(b, j);
            }
            natural_from(a, b, ea, eb)
        }
    } else {
        let o = order_chars(char_lowercase(a[i]), char_lowercase(b[j]));
        if o != 0 {
            o
        } else {
            natural_from(a, b, i + 1, j + 1)
        }
    }
}

/// The order file names are shown in: runs of digits compare by value, other
/// characters by their lowercase forms, and names equal under those rules fall
/// back to plain order.
pub open spec fn natural_order(a: Seq<char>, b: Seq<char>) -> int {
    natural_from(a, b, 0, 0)
}

pub open spec fn ordering_of(o: int) -> Ordering {
    if o < 0 {
        Ordering::Less
    } else if o == 0 {
        Ordering::Equal
    } else {
        Ordering::Greater
    }
}

/// `first`, unless it is a tie; then `second`.
pub open spec fn then(first: int, second: int) -> int {
    if first != 0 {
        first
    } else {
        second
    }
}

pub open spec fn order_u64(a: u64, b: u64) -> int {
    if a < b {
        -1
    } else if a > b {
        1
    } else {
        0
    }
}

/// Times ordered with "unknown" before every known time.
pub open spec fn order_time(a: Option<i128>, b: Option<i128>) -> int {
    match (a, b) {
        (None, None) => 0,
        (None, Some(_)) => -1,
        (Some(_), None) => 1,
        (Some(x), Some(y)) => if x < y {
            -1
        } else if x > y {
            1
        } else {
            0
        },
    }
}

pub open spec fn extension_or_empty(e: EntryV) -> Seq<char> {
    match spec_extension(e) {
        Some(x) => x,
        None => Seq::<char>::empty(),
    }
}

/// The column that decides between `a` and `b`: folders have no meaningful size or
/// extension, so between two folders those columns fall back to the name.
pub open spec fn effective_key(a: EntryV, b: EntryV, key: SortKey) -> SortKey {
    if a.kind.spec_is_dir_like() && b.kind.spec_is_dir_like() {
        match key {
            SortKey::Extension | SortKey::Size => SortKey::Name,
            other => other,
        }
    } else {
        key
    }
}

/// Where `a` goes relative to `b` by one column, ascending; ties on the column
/// fall back to the name (for extensions, to the rest of the name).
pub open spec fn key_order(a: EntryV, b: EntryV, key: SortKey) -> int {
    match key {
        SortKey::Name => natural_order(a.name, b.name),
        SortKey::Extension => then(
            natural_order(extension_or_empty(a), extension_or_empty(b)),
            natural_order(spec_stem(a), spec_stem(b)),
        ),
        SortKey::Size => then(order_u64(a.size, b.size), natural_order(a.name, b.name)),
        SortKey::Modified => then(order_time(a.modified, b.modified), natural_order(a.name, b.name)),
    }
}

/// Where `a` goes relative to `b` in a listing sorted by `spec`.
pub open spec fn entry_order(a: EntryV, b: EntryV, spec: SortSpec) -> int {
    let ad = a.kind.spec_is_dir_like();
    let bd = b.kind.spec_is_dir_like();
    if spec.dirs_first && ad != bd {
        if ad {
            -1
        } else {
            1
        }
    } else {
        let ord = key_order(a, b, effective_key(a, b, spec.key));
        match spec.order {
            SortOrder::Ascending => ord,
            SortOrder::Descending => -ord,
        }
    }
}

pub open spec fn entry_views(s: Seq<Entry>) -> Seq<EntryV> {
    s.map_values(|e: Entry| e@)
}

/// Every neighbour pair of `s` is in order.
pub open spec fn sorted_by(s: Seq<EntryV>, spec: SortSpec) -> bool {
    forall|i: int| 0 <= i < s.len() - 1 ==> entry_order(#[trigger] s[i], s[i + 1], spec) <= 0
}

// ---------------------------------------------------------------------------------------------
// Laws of the order
// ---------------------------------------------------------------------------------------------

pub proof fn lemma_order_chars(a: Seq<char>, b: Seq<char>)
    ensures
        -1 <= order_chars(a, b) <= 1,
        order_chars(a, b) == -order_chars(b, a),
        order_chars(a, b) == 0 <==> a == b,
    decreases a.len(),
{
    if a.len() > 0 && b.len() > 0 {
        lemma_order_chars(a.drop_first(), b.drop_first());
        if a[0] == b[0] && a.drop_first() == b.drop_first() {
            assert(a =~= seq![a[0]] + a.drop_first());
            assert(b =~= seq![b[0]] + b.drop_first());
        }
        if a == b {
            assert(a.drop_first() == b.drop_first());
        }
    } else if a.len() == 0 && b.len() == 0 {
        assert(a =~= b);
    }
}

pub proof fn lemma_order_numbers(a: Seq<char>, b: Seq<char>)
    ensures
        -1 <= order_numbers(a, b) <= 1,
        order_numbers(a, b) == -order_numbers(b, a),
        a == b ==> order_numbers(a, b) == 0,
{
    lemma_order_chars(strip_zeros(a), strip_zeros(b));
}

pub proof fn lemma_natural_from(a: Seq<char>, b: Seq<char>, i: int, j: int)
    requires
        0 <= i <= a.len(),
        0 <= j <= b.len(),
    ensures
        -1 <= natural_from(a, b, i, j) <= 1,
        natural_from(a, b, i, j) == -natural_from(b, a, j, i),
        natural_from(a, b, i, j) == 0 ==> a == b,
    decreases (a.len() - i) + (b.len() - j),
{
    lemma_order_chars(a, b);
    if i == a.len() || j == b.len() {
    } else if is_ascii_digit(a[i]) && is_ascii_digit(b[j]) {
        lemma_digit_run(a, i);
        lemma_digit_run(b, j);
        lemma_order_numbers(a.subrange(i, digit_run(a, i)), b.subrange(j, digit_run(b, j)));
        lemma_natural_from(a, b, digit_run(a, i), digit_run(b, j));
    } else {
        lemma_order_chars(char_lowercase(a[i]), char_lowercase(b[j]));
        lemma_natural_from(a, b, i + 1, j + 1);
    }
}

pub proof fn lemma_natural_from_same(a: Seq<char>, i: int)
    requires
        0 <= i <= a.len(),
    ensures
        natural_from(a, a, i, i) == 0,
    decreases a.len() - i,
{
    lemma_order_chars(a, a);
    if i < a.len() {
        if is_ascii_digit(a[i]) {
            lemma_digit_run(a, i);
            lemma_order_numbers(a.subrange(i, digit_run(a, i)), a.subrange(i, digit_run(a, i)));
            lemma_natural_from_same(a, digit_run(a, i));
        } else {
            lemma_order_chars(char_lowercase(a[i]), char_lowercase(a[i]));
            lemma_natural_from_same(a, i + 1);
        }
    }
}

/// Natural order is a strict order up to equality: swapping the names flips the
/// answer, and two names tie exactly when they are the same name.
pub proof fn lemma_natural_order(a: Seq<char>, b: Seq<char>)
    ensures
        -1 <= natural_order(a, b) <= 1,
        natural_order(a, b) == -natural_order(b, a),
        natural_order(a, b) == 0 <==> a == b,
{
    lemma_natural_from(a, b, 0, 0);
    if a == b {
        lemma_natural_from_same(a, 0);
    }
}

/// What the natural order takes for granted of a character it compares: an ASCII
/// digit lowercases to itself, and no other character lowercases to something
/// that starts with an ASCII digit. Unicode's case tables have both properties;
/// nothing in this crate states them of `char::to_lowercase`, so laws that need
/// them ask for them.
pub open spec fn digit_safe(c: char) -> bool {
    if is_ascii_digit(c) {
        char_lowercase(c) == seq![c]
    } else {
        char_lowercase(c).len() == 0 || !is_ascii_digit(char_lowercase(c)[0])
    }
}

/// Every character of `s` is [`digit_safe`].
pub open spec fn digit_safe_name(s: Seq<char>) -> bool {
    forall|i: int| 0 <= i < s.len() ==> digit_safe(#[trigger] s[i])
}

/// How the piece at `i` of `a` compares with the piece at `j` of `b`: two runs of
/// digits by value, anything else by lowercase form.
pub open spec fn token_order(a: Seq<char>, i: int, b: Seq<char>, j: int) -> int {
    if is_ascii_digit(a[i]) && is_ascii_digit(b[j]) {
        order_numbers(a.subrange(i, digit_run(a, i)), b.subrange(j, digit_run(b, j)))
    } else {
        order_chars(char_lowercase(a[i]), char_lowercase(b[j]))
    }
}

/// A lowercase form that sorts after every digit.
pub open spec fn above_digits(l: Seq<char>) -> bool {
    l.len() > 0 && l[0] > '9'
}

proof fn lemma_order_chars_trans(a: Seq<char>, b: Seq<char>, c: Seq<char>)
    ensures
        order_chars(a, b) <= 0 && order_chars(b, c) <= 0 ==> order_chars(a, c) <= 0,
        order_chars(a, b) < 0 && order_chars(b, c) <= 0 ==> order_chars(a, c) < 0,
        order_chars(a, b) <= 0 && order_chars(b, c) < 0 ==> order_chars(a, c) < 0,
    decreases a.len(),
{
    lemma_order_chars(a, b);
    lemma_order_chars(b, c);
    lemma_order_chars(a, c);
    if a.len() > 0 && b.len() > 0 && c.len() > 0 {
        lemma_order_chars_trans(a.drop_first(), b.drop_first(), c.drop_first());
    }
}

proof fn lemma_order_numbers_trans(a: Seq<char>, b: Seq<char>, c: Seq<char>)
    ensures
        order_numbers(a, b) <= 0 && order_numbers(b, c) <= 0 ==> order_numbers(a, c) <= 0,
        order_numbers(a, b) < 0 && order_numbers(b, c) <= 0 ==> order_numbers(a, c) < 0,
        order_numbers(a, b) <= 0 && order_numbers(b, c) < 0 ==> order_numbers(a, c) < 0,
{
    lemma_order_chars_trans(strip_zeros(a), strip_zeros(b), strip_zeros(c));
    lemma_order_chars(strip_zeros(a), strip_zeros(b));
    lemma_order_chars(strip_zeros(b), strip_zeros(c));
    lemma_order_chars(strip_zeros(a), strip_zeros(c));
}

/// A digit against a lowercase form that doesn't start with a digit: the answer
/// only depends on which side of the digits that form falls.
proof fn lemma_digit_vs_lower(d: char, l: Seq<char>)
    requires
        is_ascii_digit(d),
        l.len() == 0 || !is_ascii_digit(l[0]),
    ensures
        order_chars(seq![d], l) == (if above_digits(l) { -1int } else { 1int }),
        order_chars(l, seq![d]) == (if above_digits(l) { 1int } else { -1int }),
{
    lemma_order_chars(seq![d], l);
}

proof fn lemma_above_mono(l1: Seq<char>, l2: Seq<char>)
    requires
        order_chars(l1, l2) <= 0,
        above_digits(l1),
    ensures
        above_digits(l2),
{
}

proof fn lemma_token_antisym(a: Seq<char>, i: int, b: Seq<char>, j: int)
    requires
        0 <= i < a.len(),
        0 <= j < b.len(),
    ensures
        token_order(a, i, b, j) == -token_order(b, j, a, i),
        -1 <= token_order(a, i, b, j) <= 1,
{
    lemma_order_numbers(a.subrange(i, digit_run(a, i)), b.subrange(j, digit_run(b, j)));
    lemma_order_chars(char_lowercase(a[i]), char_lowercase(b[j]));
}

proof fn lemma_token_trans(a: Seq<char>, i: int, b: Seq<char>, j: int, c: Seq<char>, k: int)
    requires
        0 <= i < a.len(),
        0 <= j < b.len(),
        0 <= k < c.len(),
        digit_safe(a[i]),
        digit_safe(b[j]),
        digit_safe(c[k]),
    ensures
        token_order(a, i, b, j) <= 0 && token_order(b, j, c, k) <= 0 ==> token_order(a, i, c, k) <= 0,
        token_order(a, i, b, j) < 0 && token_order(b, j, c, k) <= 0 ==> token_order(a, i, c, k) < 0,
        token_order(a, i, b, j) <= 0 && token_order(b, j, c, k) < 0 ==> token_order(a, i, c, k) < 0,
        is_ascii_digit(a[i]) != is_ascii_digit(b[j]) ==> token_order(a, i, b, j) != 0,
{
    let na = a.subrange(i, digit_run(a, i));
    let nb = b.subrange(j, digit_run(b, j));
    let nc = c.subrange(k, digit_run(c, k));
    let la = char_lowercase(a[i]);
    let lb = char_lowercase(b[j]);
    let lc = char_lowercase(c[k]);
    lemma_order_numbers_trans(na, nb, nc);
    lemma_order_chars_trans(la, lb, lc);
    let da = is_ascii_digit(a[i]);
    let db = is_ascii_digit(b[j]);
    let dc = is_ascii_digit(c[k]);
    if da && !db {
        lemma_digit_vs_lower(a[i], lb);
    }
    if da && !dc {
        lemma_digit_vs_lower(a[i], lc);
    }
    if db && !da {
        lemma_digit_vs_lower(b[j], la);
    }
    if db && !dc {
        lemma_digit_vs_lower(b[j], lc);
    }
    if dc && !da {
        lemma_digit_vs_lower(c[k], la);
    }
    if dc && !db {
        lemma_digit_vs_lower(c[k], lb);
    }
    if !da && !db && dc && order_chars(la, lb) <= 0 && !above_digits(lb) && above_digits(la) {
        lemma_above_mono(la, lb);
    }
    if da && !db && !dc && order_chars(lb, lc) <= 0 && above_digits(lb) {
        lemma_above_mono(lb, lc);
    }
}

proof fn lemma_natural_from_trans(a: Seq<char>, b: Seq<char>, c: Seq<char>, i: int, j: int, k: int)
    requires
        0 <= i <= a.len(),
        0 <= j <= b.len(),
        0 <= k <= c.len(),
        digit_safe_name(a),
        digit_safe_name(b),
        digit_safe_name(c),
        natural_from(a, b, i, j) <= 0,
        natural_from(b, c, j, k) <= 0,
    ensures
        natural_from(a, c, i, k) <= 0,
    decreases (a.len() - i) + (b.len() - j) + (c.len() - k),
{
    if i == a.len() || j == b.len() || k == c.len() {
        lemma_order_chars_trans(a, b, c);
    } else {
        lemma_token_trans(a, i, b, j, c, k);
        lemma_token_trans(c, k, b, j, a, i);
        lemma_token_antisym(a, i, b, j);
        lemma_token_antisym(b, j, c, k);
        lemma_token_antisym(a, i, c, k);
        lemma_digit_run(a, i);
        lemma_digit_run(b, j);
        lemma_digit_run(c, k);
        if token_order(a, i, b, j) == 0 && token_order(b, j, c, k) == 0 {
            if is_ascii_digit(a[i]) {
                lemma_natural_from_trans(a, b, c, digit_run(a, i), digit_run(b, j), digit_run(c, k));
            } else {
                lemma_natural_from_trans(a, b, c, i + 1, j + 1, k + 1);
            }
        }
    }
}

/// Natural order is transitive: a name that goes no later than a second, which
/// goes no later than a third, goes no later than the third. Stated for names
/// whose characters are [`digit_safe`].
pub proof fn lemma_natural_order_transitive(a: Seq<char>, b: Seq<char>, c: Seq<char>)
    requires
        digit_safe_name(a),
        digit_safe_name(b),
        digit_safe_name(c),
        natural_order(a, b) <= 0,
        natural_order(b, c) <= 0,
    ensures
        natural_order(a, c) <= 0,
{
    lemma_natural_from_trans(a, b, c, 0, 0, 0);
}

/// Swapping two entries flips their order in a listing.
pub proof fn lemma_entry_order_flips(a: EntryV, b: EntryV, spec: SortSpec)
    ensures
        -1 <= entry_order(a, b, spec) <= 1,
        entry_order(a, b, spec) == -entry_order(b, a, spec),
{
    lemma_natural_order(a.name, b.name);
    lemma_natural_order(extension_or_empty(a), extension_or_empty(b));
    lemma_natural_order(spec_stem(a), spec_stem(b));
}

proof fn lemma_natural_facts(a: Seq<char>, b: Seq<char>, c: Seq<char>)
    requires
        digit_safe_name(a),
        digit_safe_name(b),
        digit_safe_name(c),
    ensures
        natural_order(a, b) <= 0 && natural_order(b, c) <= 0 ==> natural_order(a, c) <= 0,
        natural_order(a, b) < 0 && natural_order(b, c) <= 0 ==> natural_order(a, c) < 0,
        natural_order(a, b) <= 0 && natural_order(b, c) < 0 ==> natural_order(a, c) < 0,
        natural_order(a, b) == 0 && natural_order(b, c) == 0 ==> natural_order(a, c) == 0,
{
    lemma_natural_order(a, b);
    lemma_natural_order(b, c);
    lemma_natural_order(a, c);
    if natural_order(a, b) <= 0 && natural_order(b, c) <= 0 {
        lemma_natural_order_transitive(a, b, c);
    }
}

proof fn lemma_then_trans(pab: int, pbc: int, pac: int, sab: int, sbc: int, sac: int)
    requires
        pab <= 0 && pbc <= 0 ==> pac <= 0,
        pab < 0 && pbc <= 0 ==> pac < 0,
        pab <= 0 && pbc < 0 ==> pac < 0,
        pab == 0 && pbc == 0 ==> pac == 0,
        sab <= 0 && sbc <= 0 ==> sac <= 0,
    ensures
        then(pab, sab) <= 0 && then(pbc, sbc) <= 0 ==> then(pac, sac) <= 0,
{
}

proof fn lemma_pieces_digit_safe(e: EntryV)
    requires
        digit_safe_name(e.name),
    ensures
        digit_safe_name(extension_or_empty(e)),
        digit_safe_name(spec_stem(e)),
{
    lemma_rfind(e.name, '.');
    match spec_extension(e) {
        Some(x) => {
            let d = rfind(e.name, '.')->0;
            assert forall|i: int| 0 <= i < x.len() implies digit_safe(#[trigger] x[i]) by {
                assert(x[i] == e.name[d + 1 + i]);
            }
            let st = spec_stem(e);
            assert forall|i: int| 0 <= i < st.len() implies digit_safe(#[trigger] st[i]) by {
                assert(st[i] == e.name[i]);
            }
        },
        None => {},
    }
}

proof fn lemma_key_order_trans(a: EntryV, b: EntryV, c: EntryV, key: SortKey)
    requires
        digit_safe_name(a.name),
        digit_safe_name(b.name),
        digit_safe_name(c.name),
    ensures
        key_order(a, b, key) <= 0 && key_order(b, c, key) <= 0 ==> key_order(a, c, key) <= 0,
        key_order(a, b, key) == -key_order(b, a, key),
{
    lemma_natural_facts(a.name, b.name, c.name);
    lemma_natural_order(a.name, b.name);
    lemma_pieces_digit_safe(a);
    lemma_pieces_digit_safe(b);
    lemma_pieces_digit_safe(c);
    let (ea, eb, ec) = (extension_or_empty(a), extension_or_empty(b), extension_or_empty(c));
    let (sa, sb, sc) = (spec_stem(a), spec_stem(b), spec_stem(c));
    lemma_natural_facts(ea, eb, ec);
    lemma_natural_facts(sa, sb, sc);
    lemma_natural_order(ea, eb);
    lemma_natural_order(sa, sb);
    let na = natural_order(a.name, b.name);
    let nb = natural_order(b.name, c.name);
    let nc = natural_order(a.name, c.name);
    lemma_then_trans(order_u64(a.size, b.size), order_u64(b.size, c.size), order_u64(a.size, c.size), na, nb, nc);
    lemma_then_trans(
        order_time(a.modified, b.modified),
        order_time(b.modified, c.modified),
        order_time(a.modified, c.modified),
        na,
        nb,
        nc,
    );
    lemma_then_trans(
        natural_order(ea, eb),
        natural_order(eb, ec),
        natural_order(ea, ec),
        natural_order(sa, sb),
        natural_order(sb, sc),
        natural_order(sa, sc),
    );
}

/// Sorting a listing is consistent: an entry that goes no later than a second,
/// which goes no later than a third, goes no later than the third. Stated for
/// names whose characters are [`digit_safe`], and not for an order by size or
/// extension that mixes folders in among files: there two folders are ordered
/// by name while a folder and a file are ordered by the column, and three
/// entries can go round in a circle.
pub proof fn lemma_entry_order_transitive(a: EntryV, b: EntryV, c: EntryV, spec: SortSpec)
    requires
        spec.dirs_first || spec.key == SortKey::Name || spec.key == SortKey::Modified,
        digit_safe_name(a.name),
        digit_safe_name(b.name),
        digit_safe_name(c.name),
        entry_order(a, b, spec) <= 0,
        entry_order(b, c, spec) <= 0,
    ensures
        entry_order(a, c, spec) <= 0,
{
    let ad = a.kind.spec_is_dir_like();
    let bd = b.kind.spec_is_dir_like();
    let cd = c.kind.spec_is_dir_like();
    if !(spec.dirs_first && (ad != bd || bd != cd)) {
        let k = effective_key(a, b, spec.key);
        assert(effective_key(b, c, spec.key) == k && effective_key(a, c, spec.key) == k);
        lemma_key_order_trans(a, b, c, k);
        lemma_key_order_trans(c, b, a, k);
        lemma_key_order_trans(a, c, b, k);
    }
}

// ---------------------------------------------------------------------------------------------
// The order, as code
// ---------------------------------------------------------------------------------------------

/// Lexicographic order of `a[a0..a1]` and `b[b0..b1]`.
fn order_ranges(a: &[char], a0: usize, a1: usize, b: &[char], b0: usize, b1: usize) -> (r: i8)
    requires
        a0 <= a1 <= a@.len(),
        b0 <= b1 <= b@.len(),
    ensures
        r == order_chars(a@.subrange(a0 as int, a1 as int), b@.subrange(b0 as int, b1 as int)),
{
    let mut x = a0;
    let mut y = b0;
    while x < a1 && y < b1
        invariant
            a0 <= x <= a1 <= a@.len(),
            b0 <= y <= b1 <= b@.len(),
            order_chars(a@.subrange(a0 as int, a1 as int), b@.subrange(b0 as int, b1 as int))
                == order_chars(a@.subrange(x as int, a1 as int), b@.subrange(y as int, b1 as int)),
        decreases a1 - x,
    {
        let ca = a[x];
        let cb = b[y];
        if ca < cb {
            return -1;
        }
        if ca > cb {
            return 1;
        }
        assert(a@.subrange(x as int, a1 as int).drop_first() =~= a@.subrange(x + 1, a1 as int));
        assert(b@.subrange(y as int, b1 as int).drop_first() =~= b@.subrange(y + 1, b1 as int));
        x += 1;
        y += 1;
    }
    if x == a1 && y == b1 {
        0
    } else if x == a1 {
        -1
    } else {
        1
    }
}

/// Where the run of digits starting at `i` ends.
fn digit_run_end(s: &[char], i: usize) -> (e: usize)
    requires
        i <= s@.len(),
    ensures
        e == digit_run(s@, i as int),
{
    let mut k = i;
    while k < s.len() && '0' <= s[k] && s[k] <= '9'
        invariant
            i <= k <= s@.len(),
            digit_run(s@, k as int) == digit_run(s@, i as int),
        decreases s@.len() - k,
    {
        k += 1;
    }
    k
}

/// Skips the zeros at the start of `s[i..e]`.
fn skip_zeros(s: &[char], i: usize, e: usize) -> (z: usize)
    requires
        i <= e <= s@.len(),
    ensures
        i <= z <= e,
        strip_zeros(s@.subrange(i as int, e as int)) == s@.subrange(z as int, e as int),
{
    let mut z = i;
    while z < e && s[z] == '0'
        invariant
            i <= z <= e <= s@.len(),
            strip_zeros(s@.subrange(i as int, e as int)) == strip_zeros(s@.subrange(z as int, e as int)),
        decreases e - z,
    {
        assert(s@.subrange(z as int, e as int).drop_first() =~= s@.subrange(z + 1, e as int));
        z += 1;
    }
    z
}

/// Orders the digit strings `a[a0..a1]` and `b[b0..b1]` by value.
fn order_number_ranges(a: &[char], a0: usize, a1: usize, b: &[char], b0: usize, b1: usize) -> (r: i8)
    requires
        a0 <= a1 <= a@.len(),
        b0 <= b1 <= b@.len(),
    ensures
        r == order_numbers(a@.subrange(a0 as int, a1 as int), b@.subrange(b0 as int, b1 as int)),
{
    let za = skip_zeros(a, a0, a1);
    let zb = skip_zeros(b, b0, b1);
    let la = a1 - za;
    let lb = b1 - zb;
    if la < lb {
        -1
    } else if la > lb {
        1
    } else {
        order_ranges(a, za, a1, b, zb, b1)
    }
}

/// The natural order of two names given as characters.
pub fn natural_order_of(a: &[char], b: &[char]) -> (r: i8)
    ensures
        r == natural_order(a@, b@),
{
    let mut i: usize = 0;
    let mut j: usize = 0;
    while i < a.len() && j < b.len()
        invariant
            i <= a@.len(),
            j <= b@.len(),
            natural_order(a@, b@) == natural_from(a@, b@, i as int, j as int),
        decreases (a@.len() - i) + (b@.len() - j),
    {
        let ca = a[i];
        let cb = b[j];
        if '0' <= ca && ca <= '9' && '0' <= cb && cb <= '9' {
            let ea = digit_run_end(a, i);
            let eb = digit_run_end(b, j);
            proof {
                lemma_digit_run(a@, i as int);
                lemma_digit_run(b@, j as int);
            }
            let o = order_number_ranges(a, i, ea, b, j, eb);
            if o != 0 {
                return o;
            }
            i = ea;
            j = eb;
        } else {
            let la = lowercase_of(ca);
            let lb = lowercase_of(cb);
            let o = order_ranges(&la, 0, la.len(), &lb, 0, lb.len());
            proof {
                assert(la@.subrange(0, la@.len() as int) =~= la@);
                assert(lb@.subrange(0, lb@.len() as int) =~= lb@);
            }
            if o != 0 {
                return o;
            }
            i += 1;
            j += 1;
        }
    }
    if i == a.len() && j == b.len() {
        proof {
            assert(a@.subrange(0, a@.len() as int) =~= a@);
            assert(b@.subrange(0, b@.len() as int) =~= b@);
        }
        order_ranges(a, 0, a.len(), b, 0, b.len())
    } else if i == a.len() {
        -1
    } else {
        1
    }
}

/// "Natural" string comparison, the way humans expect file names to be sorted:
/// numbers compare by value (`file2` < `file10`) and letters ignore case (`apple` < `Banana`).
///
/// If two names are equal under those rules (`File` vs `file`, `01` vs `1`)
/// the plain order of the text decides, so the order is always deterministic.
pub fn natural_cmp(a: &str, b: &str) -> (r: Ordering)
    ensures
        r == ordering_of(natural_order(a@, b@)),
{
    let av = chars_of(a);
    let bv = chars_of(b);
    let o = natural_order_of(&av, &bv);
    if o < 0 {
        Ordering::Less
    } else if o == 0 {
        Ordering::Equal
    } else {
        Ordering::Greater
    }
}

/// Natural order of two strings.
pub(crate) fn natural_order_str(a: &str, b: &str) -> (r: i8)
    ensures
        r == natural_order(a@, b@),
{
    let av = chars_of(a);
    let bv = chars_of(b);
    natural_order_of(&av, &bv)
}

fn then_exec(first: i8, second: i8) -> (r: i8)
    ensures
        r == then(first as int, second as int),
{
    if first != 0 {
        first
    } else {
        second
    }
}

/// Where `a` goes relative to `b` in a listing sorted by `spec`: -1 before, 1 after,
/// 0 for the same place.
pub fn compare(a: &Entry, b: &Entry, spec: SortSpec) -> (r: i8)
    ensures
        r == entry_order(a@, b@, spec),
{
    let a_dir = a.kind.is_dir_like();
    let b_dir = b.kind.is_dir_like();
    if spec.dirs_first && a_dir != b_dir {
        return if a_dir {
            -1
        } else {
            1
        };
    }
    let key = if a_dir && b_dir {
        match spec.key {
            SortKey::Extension | SortKey::Size => SortKey::Name,
            other => other,
        }
    } else {
        spec.key
    };
    let ord: i8 = match key {
        SortKey::Name => natural_order_str(a.name.as_str(), b.name.as_str()),
        SortKey::Extension => {
            let ea = match a.extension() {
                Some(x) => x,
                None => "",
            };
            let eb = match b.extension() {
                Some(x) => x,
                None => "",
            };
            proof {
                reveal_strlit("");
            }
            let first = natural_order_str(ea, eb);
            let second = natural_order_str(a.stem(), b.stem());
            then_exec(first, second)
        },
        SortKey::Size => {
            let first: i8 = if a.size < b.size {
                -1
            } else if a.size > b.size {
                1
            } else {
                0
            };
            then_exec(first, natural_order_str(a.name.as_str(), b.name.as_str()))
        },
        SortKey::Modified => {
            let first: i8 = match (a.modified, b.modified) {
                (None, None) => 0,
                (None, Some(_)) => -1,
                (Some(_), None) => 1,
                (Some(x), Some(y)) => if x < y {
                    -1
                } else if x > y {
                    1
                } else {
                    0
                },
            };
            then_exec(first, natural_order_str(a.name.as_str(), b.name.as_str()))
        },
    };
    proof {
        lemma_entry_order_flips(a@, b@, spec);
    }
    match spec.order {
        SortOrder::Ascending => ord,
        SortOrder::Descending => -ord,
    }
}

/// Sorts a listing in place.
///
/// Folders have no meaningful size or extension, so when sorting by those
/// columns the folders are ordered by name instead. Ties fall back to natural
/// name order, so the result is predictable.
pub fn sort_entries(entries: &mut Vec<Entry>, spec: SortSpec)
    ensures
        entry_views(final(entries)@).to_multiset() == entry_views(old(entries)@).to_multiset(),
        sorted_by(entry_views(final(entries)@), spec),
{
    broadcast use vstd::seq_lib::group_to_multiset_ensures;

    let ghost orig = entry_views(entries@);
    let mut src: Vec<Entry> = Vec::new();
    std::mem::swap(&mut src, entries);
    let mut out: Vec<Entry> = Vec::new();
    assert(entry_views(out@) =~= Seq::<EntryV>::empty());
    while src.len() > 0
        invariant
            entry_views(out@).to_multiset().add(entry_views(src@).to_multiset()) == orig.to_multiset(),
            sorted_by(entry_views(out@), spec),
        decreases src@.len(),
    {
        let ghost src_before = entry_views(src@);
        let x = src.remove(0);
        proof {
            assert(entry_views(src@) =~= src_before.remove(0));
            assert(src_before[0] == x@);
            src_before.to_multiset_ensures();
            assert(src_before.remove(0).to_multiset() == src_before.to_multiset().remove(src_before[0]));
            assert(src_before.contains(src_before[0]));
            assert(src_before.to_multiset().count(src_before[0]) > 0);
        }
        let mut k = out.len();
        while k > 0 && compare(&out[k - 1], &x, spec) > 0
            invariant
                k <= out@.len(),
                k < out@.len() ==> entry_order(out@[k as int]@, x@, spec) > 0,
            decreases k,
        {
            k -= 1;
        }
        let ghost before = entry_views(out@);
        proof {
            if k < out@.len() {
                lemma_entry_order_flips(out@[k as int]@, x@, spec);
            }
        }
        out.insert(k, x);
        proof {
            let after = entry_views(out@);
            assert(after =~= before.insert(k as int, x@));
            assert(after.remove(k as int) =~= before);
            after.to_multiset_ensures();
            assert(after[k as int] == x@);
            assert(after.contains(x@));
            assert(before.to_multiset() == after.to_multiset().remove(x@));
            assert(after.to_multiset() =~= before.to_multiset().insert(x@));
            assert(after.to_multiset().add(entry_views(src@).to_multiset()) =~= before.to_multiset().add(src_before.to_multiset()));
            assert forall|i: int| 0 <= i < after.len() - 1 implies entry_order(
                #[trigger] after[i],
                after[i + 1],
                spec,
            ) <= 0 by {
                if i < k - 1 {
                    assert(after[i] == before[i] && after[i + 1] == before[i + 1]);
                } else if i == k - 1 {
                } else if i == k {
                } else {
                    assert(after[i] == before[i - 1] && after[i + 1] == before[i]);
                }
            }
        }
    }
    assert(entry_views(src@) =~= Seq::<EntryV>::empty());
    *entries = out;
}

} // verus!
