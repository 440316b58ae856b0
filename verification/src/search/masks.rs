//! File-name masks, the way a search box takes them.
//!
//! `*.txt` is the whole idea, but the details are where the surprises are:
//! several masks at once, masks that *leave things out*, and `*.*` meaning "everything"
//! rather than "everything with a dot in it" — which is what people who have
//! used file managers expect, and what Total Commander does.
use vstd::prelude::*;

use crate::text::{char_lowercase, chars_eq, chars_of, lowercase_of, split_chars, split_on, string_of, char_vecs, strings};
use crate::vpath::{find, find_from, trim, trim_chars};

verus! {

// ---------------------------------------------------------------------------------------------
// Matching one mask
// ---------------------------------------------------------------------------------------------

/// Two characters, ignoring case, for every alphabet rather than just ASCII.
pub open spec fn same(one: char, other: char) -> bool {
    one == other || char_lowercase(one) == char_lowercase(other)
}

/// Whether mask character `m[i]` accepts name character `n[j]` on its own.
pub open spec fn accepts(m: Seq<char>, n: Seq<char>, i: int, j: int) -> bool {
    m[i] == '?' || same(m[i], n[j])
}

/// Wildcard matching of `m[i..]` against `n[j..]`: `*` stands for any run of
/// characters including none, `?` for exactly one, everything else for a character
/// that is the same ignoring case.
pub open spec fn wild(m: Seq<char>, n: Seq<char>, i: int, j: int) -> bool
    decreases (m.len() - i) + (n.len() - j),
{
    if i < 0 || j < 0 || i > m.len() || j > n.len() {
        false
    } else if i == m.len() {
        j == n.len()
    } else if m[i] == '*' {
        wild(m, n, i + 1, j) || (j < n.len() && wild(m, n, i, j + 1))
    } else {
        j < n.len() && accepts(m, n, i, j) && wild(m, n, i + 1, j + 1)
    }
}

/// Everything in `m` from `i` on is a `*`.
pub open spec fn only_stars_from(m: Seq<char>, i: int) -> bool {
    forall|k: int| i <= k < m.len() ==> m[k] == '*'
}

/// The matcher's walk, from the state it is in: at mask position `am` and name
/// position `an`, with the last `*` seen (if any) at `star` and the name position it
/// was last retried from at `sw`. A `*` in the mask starts a new retry point, whatever
/// the name holds there (a `*` in a name is an ordinary character); any other mask
/// character is tried against one character of the name; a dead end goes back to the
/// last `*` and lets it take one character more.
pub open spec fn walk(m: Seq<char>, n: Seq<char>, am: int, an: int, star: Option<int>, sw: int) -> bool
    decreases n.len() - sw, n.len() - an, m.len() - am,
{
    if !(0 <= am <= m.len() && 0 <= sw <= an <= n.len() && (star matches Some(p) ==> 0 <= p < am)) {
        false
    } else if an < n.len() {
        if am < m.len() && m[am] == '*' {
            walk(m, n, am + 1, an, Some(am), an)
        } else if am < m.len() && accepts(m, n, am, an) {
            walk(m, n, am + 1, an + 1, star, sw)
        } else {
            match star {
                Some(p) => walk(m, n, p + 1, sw + 1, star, sw + 1),
                None => false,
            }
        }
    } else {
        only_stars_from(m, am)
    }
}

/// Whether mask `m` matches name `n`, as the matcher decides it.
pub open spec fn glob_spec(m: Seq<char>, n: Seq<char>) -> bool {
    walk(m, n, 0, 0, None, 0)
}

// ---------------------------------------------------------------------------------------------
// Why the walk is wildcard matching
// ---------------------------------------------------------------------------------------------

/// A `*` takes some run of characters, possibly none.
proof fn lemma_star_takes_a_run(m: Seq<char>, n: Seq<char>, p: int, j: int)
    requires
        0 <= p < m.len(),
        m[p] == '*',
        0 <= j <= n.len(),
    ensures
        wild(m, n, p, j) <==> exists|k: int| j <= k <= n.len() && #[trigger] wild(m, n, p + 1, k),
    decreases n.len() - j,
{
    if j < n.len() {
        lemma_star_takes_a_run(m, n, p, j + 1);
        assert(wild(m, n, p, j) == (wild(m, n, p + 1, j) || wild(m, n, p, j + 1)));
        if wild(m, n, p, j) {
            if wild(m, n, p + 1, j) {
                assert(j <= j <= n.len() && wild(m, n, p + 1, j));
            } else {
                let k = choose|k: int| j + 1 <= k <= n.len() && #[trigger] wild(m, n, p + 1, k);
                assert(j <= k <= n.len() && wild(m, n, p + 1, k));
            }
        }
        if exists|k: int| j <= k <= n.len() && #[trigger] wild(m, n, p + 1, k) {
            let k = choose|k: int| j <= k <= n.len() && #[trigger] wild(m, n, p + 1, k);
            if k > j {
                assert(j + 1 <= k <= n.len() && wild(m, n, p + 1, k));
            }
        }
    } else {
        assert(wild(m, n, p, j) == wild(m, n, p + 1, j));
        if wild(m, n, p, j) {
            assert(j <= j <= n.len() && wild(m, n, p + 1, j));
        }
        if exists|k: int| j <= k <= n.len() && #[trigger] wild(m, n, p + 1, k) {
            let k = choose|k: int| j <= k <= n.len() && #[trigger] wild(m, n, p + 1, k);
            assert(k == j);
        }
    }
}

/// A `*` that matches from a later position also matches from an earlier one.
proof fn lemma_star_reaches_back(m: Seq<char>, n: Seq<char>, p: int, j: int, x: int)
    requires
        0 <= p < m.len(),
        m[p] == '*',
        0 <= j <= x <= n.len(),
        wild(m, n, p, x),
    ensures
        wild(m, n, p, j),
{
    lemma_star_takes_a_run(m, n, p, x);
    lemma_star_takes_a_run(m, n, p, j);
    let k = choose|k: int| x <= k <= n.len() && #[trigger] wild(m, n, p + 1, k);
    assert(j <= k <= n.len() && wild(m, n, p + 1, k));
}

/// `m[i..i+len]` holds no `*` and accepts `n[j..j+len]` character by character.
pub open spec fn literal_run(m: Seq<char>, n: Seq<char>, i: int, j: int, len: int) -> bool {
    &&& 0 <= len
    &&& 0 <= i
    &&& i + len <= m.len()
    &&& 0 <= j
    &&& j + len <= n.len()
    &&& forall|k: int| i <= k < i + len ==> #[trigger] m[k] != '*' && accepts(m, n, k, j + (k - i))
}

/// A run of plain mask characters that accepts the name can be stepped over.
proof fn lemma_literal_run(m: Seq<char>, n: Seq<char>, i: int, j: int, len: int)
    requires
        literal_run(m, n, i, j, len),
    ensures
        wild(m, n, i, j) == wild(m, n, i + len, j + len),
    decreases len,
{
    if len > 0 {
        assert(m[i] != '*' && accepts(m, n, i, j));
        assert(literal_run(m, n, i + 1, j + 1, len - 1)) by {
            assert forall|k: int| i + 1 <= k < i + 1 + (len - 1) implies #[trigger] m[k] != '*'
                && accepts(m, n, k, j + 1 + (k - (i + 1))) by {
                assert(m[k] != '*' && accepts(m, n, k, j + (k - i)));
            }
        }
        lemma_literal_run(m, n, i + 1, j + 1, len - 1);
    }
}

/// A match from `i` through a stretch of plain mask characters is a match of that
/// stretch followed by a match of the rest.
proof fn lemma_plain_prefix(m: Seq<char>, n: Seq<char>, i: int, k: int, len: int)
    requires
        0 <= len,
        0 <= i,
        i + len <= m.len(),
        0 <= k <= n.len(),
        forall|q: int| i <= q < i + len ==> #[trigger] m[q] != '*',
        wild(m, n, i, k),
    ensures
        k + len <= n.len(),
        literal_run(m, n, i, k, len),
        wild(m, n, i + len, k + len),
    decreases len,
{
    if len > 0 {
        assert(m[i] != '*');
        lemma_plain_prefix(m, n, i + 1, k + 1, len - 1);
        assert forall|q: int| i <= q < i + len implies #[trigger] m[q] != '*' && accepts(
            m,
            n,
            q,
            k + (q - i),
        ) by {
            if q > i {
                assert(m[q] != '*' && accepts(m, n, q, k + 1 + (q - (i + 1))));
            }
        }
    }
}

/// At the end of the name, only stars are left to match.
proof fn lemma_end_of_name(m: Seq<char>, n: Seq<char>, i: int)
    requires
        0 <= i <= m.len(),
    ensures
        wild(m, n, i, n.len() as int) == only_stars_from(m, i),
    decreases m.len() - i,
{
    if i < m.len() {
        lemma_end_of_name(m, n, i + 1);
    }
}

/// What the walk keeps true: without a `*` behind it, everything before it matched
/// one for one; with one at `p`, the whole match is the match of the mask from `p` on
/// against the name from `sw` on, and the stretch since `p` is plain and accepted.
pub open spec fn walk_inv(m: Seq<char>, n: Seq<char>, am: int, an: int, star: Option<int>, sw: int) -> bool {
    &&& 0 <= am <= m.len()
    &&& 0 <= sw <= an <= n.len()
    &&& match star {
        None => wild(m, n, 0, 0) == wild(m, n, am, an),
        Some(p) => {
            &&& 0 <= p < am
            &&& m[p] == '*'
            &&& an - sw == am - p - 1
            &&& literal_run(m, n, p + 1, sw, am - p - 1)
            &&& wild(m, n, 0, 0) == wild(m, n, p, sw)
        },
    }
}

proof fn lemma_walk(m: Seq<char>, n: Seq<char>, am: int, an: int, star: Option<int>, sw: int)
    requires
        walk_inv(m, n, am, an, star, sw),
    ensures
        walk(m, n, am, an, star, sw) == wild(m, n, 0, 0),
    decreases n.len() - sw, n.len() - an, m.len() - am,
{
    if an < n.len() {
        if am < m.len() && m[am] == '*' {
            match star {
                None => {},
                Some(p) => {
                    let len = am - p - 1;
                    lemma_literal_run(m, n, p + 1, sw, len);
                    lemma_star_takes_a_run(m, n, p, sw);
                    if wild(m, n, p, sw) {
                        let k = choose|k: int| sw <= k <= n.len() && #[trigger] wild(m, n, p + 1, k);
                        assert forall|q: int| p + 1 <= q < p + 1 + len implies #[trigger] m[q] != '*' by {
                            assert(m[q] != '*');
                        }
                        lemma_plain_prefix(m, n, p + 1, k, len);
                        lemma_star_reaches_back(m, n, am, an, k + len);
                    }
                },
            }
            assert(literal_run(m, n, am + 1, an, 0));
            lemma_walk(m, n, am + 1, an, Some(am), an);
        } else if am < m.len() && accepts(m, n, am, an) {
            match star {
                None => {},
                Some(p) => {
                    assert(literal_run(m, n, p + 1, sw, am - p)) by {
                        assert forall|k: int| p + 1 <= k < p + 1 + (am - p) implies #[trigger] m[k]
                            != '*' && accepts(m, n, k, sw + (k - (p + 1))) by {
                            if k < am {
                                assert(m[k] != '*' && accepts(m, n, k, sw + (k - (p + 1))));
                            }
                        }
                    }
                },
            }
            lemma_walk(m, n, am + 1, an + 1, star, sw);
        } else {
            assert(!wild(m, n, am, an));
            match star {
                None => {},
                Some(p) => {
                    lemma_literal_run(m, n, p + 1, sw, am - p - 1);
                    assert(wild(m, n, p, sw) == wild(m, n, p, sw + 1));
                    assert(literal_run(m, n, p + 1, sw + 1, 0));
                    lemma_walk(m, n, p + 1, sw + 1, star, sw + 1);
                },
            }
        }
    } else {
        lemma_end_of_name(m, n, am);
        match star {
            None => {},
            Some(p) => {
                let len = am - p - 1;
                lemma_literal_run(m, n, p + 1, sw, len);
                lemma_star_takes_a_run(m, n, p, sw);
                if wild(m, n, p, sw) {
                    let k = choose|k: int| sw <= k <= n.len() && #[trigger] wild(m, n, p + 1, k);
                    assert forall|q: int| p + 1 <= q < p + 1 + len implies #[trigger] m[q] != '*' by {
                        assert(m[q] != '*');
                    }
                    lemma_plain_prefix(m, n, p + 1, k, len);
                    assert(k == sw);
                }
            },
        }
    }
}

/// The matcher decides exactly wildcard matching: `*` for any run of characters
/// including none, `?` for exactly one, anything else for a character equal to it
/// ignoring case.
pub proof fn lemma_glob_is_wildcard_matching(m: Seq<char>, n: Seq<char>)
    ensures
        glob_spec(m, n) == wild(m, n, 0, 0),
{
    lemma_walk(m, n, 0, 0, None, 0);
}

/// Whether two characters are the same, ignoring case.
fn same_char(one: char, other: char) -> (r: bool)
    ensures
        r == same(one, other),
{
    if one == other {
        return true;
    }
    let a = lowercase_of(one);
    let b = lowercase_of(other);
    chars_eq(&a, &b)
}

/// Matches one mask against one name, ignoring case.
///
/// `*` stands for any run of characters including none, `?` for exactly one.
/// Everything else is literal, a `*` in the name included.
fn glob(mask: &str, name: &str) -> (r: bool)
    ensures
        r == glob_spec(mask@, name@),
{
    let m = chars_of(mask);
    let n = chars_of(name);
    let mut at_mask: usize = 0;
    let mut at_name: usize = 0;
    // Where the last `*` was, and how much of the name it had swallowed, so a
    // dead end can be retried with the star taking one character more.
    let mut star: Option<usize> = None;
    let mut swallowed: usize = 0;
    while at_name < n.len()
        invariant
            m@ == mask@,
            n@ == name@,
            at_mask <= m@.len(),
            swallowed <= at_name <= n@.len(),
            star matches Some(p) ==> p < at_mask,
            glob_spec(m@, n@) == walk(
                m@,
                n@,
                at_mask as int,
                at_name as int,
                match star {
                    Some(p) => Some(p as int),
                    None => None,
                },
                swallowed as int,
            ),
        decreases n@.len() - swallowed, n@.len() - at_name, m@.len() - at_mask,
    {
        if at_mask < m.len() && m[at_mask] == '*' {
            star = Some(at_mask);
            swallowed = at_name;
            at_mask += 1;
        } else if at_mask < m.len() && (m[at_mask] == '?' || same_char(m[at_mask], n[at_name])) {
            at_mask += 1;
            at_name += 1;
        } else {
            match star {
                Some(position) => {
                    at_mask = position + 1;
                    swallowed += 1;
                    at_name = swallowed;
                },
                None => {
                    return false;
                },
            }
        }
    }
    // Trailing stars are allowed to match nothing at all.
    let ghost from = at_mask as int;
    assert(glob_spec(m@, n@) == only_stars_from(m@, from));
    while at_mask < m.len() && m[at_mask] == '*'
        invariant
            from <= at_mask <= m@.len(),
            m@ == mask@,
            n@ == name@,
            glob_spec(m@, n@) == only_stars_from(m@, from),
            forall|k: int| from <= k < at_mask ==> #[trigger] m@[k] == '*',
        decreases m@.len() - at_mask,
    {
        at_mask += 1;
    }
    at_mask == m.len()
}

// ---------------------------------------------------------------------------------------------
// A set of masks
// ---------------------------------------------------------------------------------------------

pub open spec fn star_dot_star() -> Seq<char> {
    seq!['*', '.', '*']
}

pub open spec fn lone_star() -> Seq<char> {
    seq!['*']
}

/// The masks in `;`-separated pieces: each trimmed, blanks dropped, and `*.*` taken
/// to mean `*`.
pub open spec fn clean_masks(pieces: Seq<Seq<char>>) -> Seq<Seq<char>>
    decreases pieces.len(),
{
    if pieces.len() == 0 {
        Seq::empty()
    } else {
        let t = trim(pieces[0]);
        let rest = clean_masks(pieces.drop_first());
        if t.len() == 0 {
            rest
        } else if t == star_dot_star() {
            seq![lone_star()] + rest
        } else {
            seq![t] + rest
        }
    }
}

/// Splits `a;b;c` into masks, dropping blanks and surrounding spaces.
pub open spec fn mask_list(text: Seq<char>) -> Seq<Seq<char>> {
    clean_masks(split_on(text, ';'))
}

/// What a set of masks holds.
pub struct MasksV {
    pub wanted: Seq<Seq<char>>,
    pub unwanted: Seq<Seq<char>>,
}

/// What `Masks::parse` makes of the text typed into a search box.
pub open spec fn parse_spec(text: Seq<char>) -> MasksV {
    let (wanted_text, unwanted_text) = match find(text, '|') {
        Some(i) => (text.take(i), text.skip(i + 1)),
        None => (text, Seq::<char>::empty()),
    };
    let wanted = mask_list(wanted_text);
    MasksV {
        wanted: if wanted.len() == 0 {
            seq![lone_star()]
        } else {
            wanted
        },
        unwanted: mask_list(unwanted_text),
    }
}

/// Whether some mask of `masks` matches `name`.
pub open spec fn any_matches(masks: Seq<Seq<char>>, name: Seq<char>) -> bool {
    exists|i: int| 0 <= i < masks.len() && glob_spec(#[trigger] masks[i], name)
}

pub open spec fn matches_spec(v: MasksV, name: Seq<char>) -> bool {
    !any_matches(v.unwanted, name) && any_matches(v.wanted, name)
}

pub open spec fn everything_spec(v: MasksV) -> bool {
    v.unwanted.len() == 0 && v.wanted.contains(lone_star())
}

/// A set of masks: what to look for, and what to leave out.
///
/// The text is what someone typed into the search box:
///
/// ```text
///     *.txt            one mask
///     *.txt;*.md       either of two
///     *.rs|test_*      every .rs file except the ones starting with test_
/// ```
#[derive(Debug, Clone, PartialEq, Eq)]
pub struct Masks {
    wanted: Vec<String>,
    unwanted: Vec<String>,
}

impl View for Masks {
    type V = MasksV;

    closed spec fn view(&self) -> MasksV {
        MasksV { wanted: strings(self.wanted@), unwanted: strings(self.unwanted@) }
    }
}

/// The masks in `pieces`, cleaned as [`clean_masks`] says.
fn clean(pieces: &Vec<Vec<char>>) -> (r: Vec<String>)
    ensures
        strings(r@) == clean_masks(char_vecs(pieces@)),
{
    let mut out: Vec<String> = Vec::new();
    let mut i = pieces.len();
    let ghost all = char_vecs(pieces@);
    proof {
        assert(all.skip(i as int) =~= Seq::<Seq<char>>::empty());
        assert(strings(out@) =~= Seq::<Seq<char>>::empty());
    }
    // Walking from the back keeps the order with a push at the front of what is kept.
    let mut kept: Vec<String> = Vec::new();
    while i > 0
        invariant
            i <= pieces@.len(),
            all == char_vecs(pieces@),
            strings(kept@).reverse() == clean_masks(all.skip(i as int)),
        decreases i,
    {
        i -= 1;
        let t = trim_chars(&pieces[i]);
        proof {
            assert(all.skip(i as int).drop_first() =~= all.skip(i + 1));
            assert(all.skip(i as int)[0] == pieces@[i as int]@);
        }
        if t.len() != 0 {
            let star_dot: Vec<char> = vec!['*', '.', '*'];
            let s = if chars_eq(&t, &star_dot) {
                proof {
                    assert(star_dot@ =~= star_dot_star());
                }
                let one: Vec<char> = vec!['*'];
                proof {
                    assert(one@ =~= lone_star());
                }
                string_of(&one)
            } else {
                proof {
                    assert(star_dot@ =~= star_dot_star());
                }
                string_of(&t)
            };
            let ghost before = strings(kept@);
            kept.push(s);
            proof {
                assert(strings(kept@) =~= before.push(s@));
                assert(strings(kept@).reverse() =~= seq![s@] + before.reverse());
            }
        }
    }
    // Turn the back-to-front list round.
    let mut j = kept.len();
    let ghost rev = strings(kept@).reverse();
    proof {
        assert(all.skip(0) =~= all);
    }
    while j > 0
        invariant
            j <= kept@.len(),
            rev == strings(kept@).reverse(),
            strings(out@) == rev.take((kept@.len() - j) as int),
        decreases j,
    {
        j -= 1;
        let s = kept[j].clone();
        let ghost before = strings(out@);
        out.push(s);
        proof {
            assert(strings(out@) =~= before.push(s@));
            assert(rev[(kept@.len() - j - 1) as int] == kept@[j as int]@);
            assert(rev.take((kept@.len() - j) as int) =~= rev.take((kept@.len() - j - 1) as int).push(
                rev[(kept@.len() - j - 1) as int],
            ));
        }
    }
    proof {
        assert(rev.take(kept@.len() as int) =~= rev);
    }
    out
}

/// Splits `a;b;c` into masks, dropping blanks and surrounding spaces.
fn split(text: &[char]) -> (r: Vec<String>)
    ensures
        strings(r@) == mask_list(text@),
{
    let pieces = split_chars(text, ';');
    clean(&pieces)
}

/// Whether some mask in `masks` matches `name`.
fn any_glob(masks: &Vec<String>, name: &str) -> (r: bool)
    ensures
        r == any_matches(strings(masks@), name@),
{
    let mut i: usize = 0;
    while i < masks.len()
        invariant
            i <= masks@.len(),
            forall|k: int| 0 <= k < i ==> !glob_spec(#[trigger] strings(masks@)[k], name@),
        decreases masks@.len() - i,
    {
        if glob(masks[i].as_str(), name) {
            assert(glob_spec(strings(masks@)[i as int], name@));
            return true;
        }
        i += 1;
    }
    false
}

impl Masks {
    /// Reads what was typed. Anything unusable just means "match everything",
    /// because an empty search box should find things, not nothing.
    pub fn parse(text: &str) -> (r: Masks)
        ensures
            r@ == parse_spec(text@),
    {
        let t = chars_of(text);
        proof {
            assert(t@.skip(0) =~= t@);
            crate::vpath::lemma_find_bounds(t@, '|');
        }
        let (wanted_text, unwanted_text): (Vec<char>, Vec<char>) = match find_from(&t, 0, '|') {
            Some(i) => {
                let mut w: Vec<char> = Vec::new();
                let mut u: Vec<char> = Vec::new();
                let mut k: usize = 0;
                while k < t.len()
                    invariant
                        i < t@.len(),
                        k <= t@.len(),
                        w@ == t@.take(if k <= i { k as int } else { i as int }),
                        u@ == (if k <= i + 1 { Seq::<char>::empty() } else { t@.subrange(i + 1, k as int) }),
                    decreases t@.len() - k,
                {
                    if k < i {
                        w.push(t[k]);
                        assert(w@ =~= t@.take(k + 1));
                    } else if k > i {
                        u.push(t[k]);
                        assert(u@ =~= t@.subrange(i + 1, k + 1));
                    }
                    k += 1;
                }
                assert(u@ =~= t@.skip(i + 1));
                (w, u)
            },
            None => (t.clone(), Vec::new()),
        };
        proof {
            assert(t@.skip(0) =~= t@);
        }
        let mut wanted = split(&wanted_text);
        if wanted.len() == 0 {
            let one: Vec<char> = vec!['*'];
            proof {
                assert(one@ =~= lone_star());
            }
            wanted.push(string_of(&one));
            assert(strings(wanted@) =~= seq![lone_star()]);
        }
        let unwanted = split(&unwanted_text);
        proof {
            assert(Seq::<char>::empty() =~= Seq::<char>::empty());
        }
        Masks { wanted, unwanted }
    }

    /// Whether a file called `name` is wanted.
    pub fn matches(&self, name: &str) -> (r: bool)
        ensures
            r == matches_spec(self@, name@),
    {
        if any_glob(&self.unwanted, name) {
            return false;
        }
        any_glob(&self.wanted, name)
    }

    /// True when nothing is filtered out at all.
    pub fn is_everything(&self) -> (r: bool)
        ensures
            r == everything_spec(self@),
    {
        if self.unwanted.len() != 0 {
            return false;
        }
        let one: Vec<char> = vec!['*'];
        proof {
            assert(one@ =~= lone_star());
        }
        let mut i: usize = 0;
        while i < self.wanted.len()
            invariant
                i <= self.wanted@.len(),
                self.unwanted@.len() == 0,
                one@ == lone_star(),
                forall|k: int| 0 <= k < i ==> #[trigger] strings(self.wanted@)[k] != lone_star(),
            decreases self.wanted@.len() - i,
        {
            let c = chars_of(self.wanted[i].as_str());
            if chars_eq(&c, &one) {
                assert(strings(self.wanted@)[i as int] == lone_star());
                assert(self@.wanted == strings(self.wanted@));
                assert(self@.wanted.contains(lone_star()));
                return true;
            }
            i += 1;
        }
        false
    }
}

} // verus!

verus! {

/// A lone `*` accepts every tail of every name.
proof fn lemma_lone_star_wild(n: Seq<char>, j: int)
    requires
        0 <= j <= n.len(),
    ensures
        wild(lone_star(), n, 0, j),
    decreases n.len() - j,
{
    let m = lone_star();
    assert(m.len() == 1 && m[0] == '*');
    if j < n.len() {
        lemma_lone_star_wild(n, j + 1);
    } else {
        assert(wild(m, n, 1, j));
    }
}

/// A lone `*` matches every name, `*`s in it included.
pub proof fn lemma_star_matches_every_name(name: Seq<char>)
    ensures
        glob_spec(lone_star(), name),
{
    lemma_glob_is_wildcard_matching(lone_star(), name);
    lemma_lone_star_wild(name, 0);
}

/// A set of masks that filters nothing out wants every name.
pub proof fn lemma_everything_matches(v: MasksV, name: Seq<char>)
    requires
        everything_spec(v),
    ensures
        matches_spec(v, name),
{
    lemma_glob_is_wildcard_matching(lone_star(), name);
    lemma_lone_star_wild(name, 0);
    let i = choose|i: int| 0 <= i < v.wanted.len() && v.wanted[i] == lone_star();
    assert(glob_spec(v.wanted[i], name));
}

} // verus!
