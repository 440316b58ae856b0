//! Browsing inside archives as if they were folders.
use vstd::prelude::*;

use crate::entry::{rfind, rfind_char};
use crate::text::chars_of;
use crate::vpath::{lower, to_lower};

pub mod fs;
pub mod index;
pub mod tar;
pub mod zip;

verus! {

pub open spec fn ends_with(s: Seq<char>, suffix: Seq<char>) -> bool {
    suffix.len() <= s.len() && s.skip(s.len() - suffix.len()) == suffix
}

pub open spec fn tar_gz() -> Seq<char> {
    seq!['.', 't', 'a', 'r', '.', 'g', 'z']
}

pub open spec fn dot_tar() -> Seq<char> {
    seq!['.', 't', 'a', 'r']
}

pub open spec fn dot_tgz() -> Seq<char> {
    seq!['.', 't', 'g', 'z']
}

pub open spec fn tar_word() -> Seq<char> {
    seq!['t', 'a', 'r']
}

pub open spec fn zip_word() -> Seq<char> {
    seq!['z', 'i', 'p']
}

/// The extensions of formats that are ZIPs with a different name on them.
pub open spec fn zip_extensions() -> Seq<Seq<char>> {
    seq![
        seq!['z', 'i', 'p'],
        seq!['j', 'a', 'r'],
        seq!['w', 'a', 'r'],
        seq!['e', 'a', 'r'],
        seq!['a', 'p', 'k'],
        seq!['x', 'p', 'i'],
        seq!['e', 'p', 'u', 'b'],
        seq!['o', 'd', 't'],
        seq!['o', 'd', 's'],
        seq!['o', 'd', 'p'],
    ]
}

/// The archive format a file name suggests: a name ending (ignoring ASCII case) in
/// `.tar.gz`, `.tar` or `.tgz` with something before it is a tar; otherwise one
/// whose extension — what follows its last dot, unless that dot is the first or
/// last character — is one of the ZIP family is a zip.
pub open spec fn kind_spec(name: Seq<char>) -> Option<Seq<char>> {
    let l = lower(name);
    if l.len() > tar_gz().len() && ends_with(l, tar_gz()) {
        Some(tar_word())
    } else if l.len() > dot_tar().len() && ends_with(l, dot_tar()) {
        Some(tar_word())
    } else if l.len() > dot_tgz().len() && ends_with(l, dot_tgz()) {
        Some(tar_word())
    } else {
        match rfind(name, '.') {
            None => None,
            Some(d) => if d == 0 || d == name.len() - 1 {
                None
            } else if zip_extensions().contains(l.skip(d + 1)) {
                Some(zip_word())
            } else {
                None
            },
        }
    }
}

/// Whether `s` ends with `suffix` and has something before it.
fn longer_and_ends_with(s: &[char], suffix: &[char]) -> (r: bool)
    ensures
        r == (s@.len() > suffix@.len() && ends_with(s@, suffix@)),
{
    if s.len() <= suffix.len() {
        return false;
    }
    let sl = s.len();
    let off = sl - suffix.len();
    let mut i: usize = 0;
    while i < suffix.len()
        invariant
            sl == s@.len(),
            off + suffix@.len() == s@.len(),
            i <= suffix@.len(),
            forall|k: int| 0 <= k < i ==> s@[off + k] == suffix@[k],
        decreases suffix@.len() - i,
    {
        if s[off + i] != suffix[i] {
            assert(s@.skip(off as int)[i as int] != suffix@[i as int]);
            return false;
        }
        i += 1;
    }
    assert(s@.skip(off as int) =~= suffix@);
    true
}

/// Whether `s[from..]` is exactly `word`.
fn rest_is(s: &[char], from: usize, word: &[char]) -> (r: bool)
    requires
        from <= s@.len(),
    ensures
        r == (s@.skip(from as int) == word@),
{
    if s.len() - from != word.len() {
        assert(s@.skip(from as int).len() != word@.len());
        return false;
    }
    let sl = s.len();
    let mut i: usize = 0;
    while i < word.len()
        invariant
            sl == s@.len(),
            from + word@.len() == s@.len(),
            i <= word@.len(),
            forall|k: int| 0 <= k < i ==> s@[from + k] == word@[k],
        decreases word@.len() - i,
    {
        if s[from + i] != word[i] {
            assert(s@.skip(from as int)[i as int] != word@[i as int]);
            return false;
        }
        i += 1;
    }
    assert(s@.skip(from as int) =~= word@);
    true
}

/// The archive format a file name suggests, if we can read it.
///
/// This is what decides whether pressing Enter on a file opens it as a folder,
/// so it deliberately only says yes to formats that can actually be read.
/// The many ZIP-based formats (`.jar`, `.apk`, `.epub`, ...) are all just ZIPs.
/// Formats that merely happen to be ZIPs inside (`.docx`, `.xlsx`) are left out:
/// someone pressing Enter on a document wants to read it, not browse its XML.
pub fn kind_for(name: &str) -> (r: Option<&'static str>)
    ensures
        match kind_spec(name@) {
            Some(k) => r matches Some(s) && s@ == k,
            None => r is None,
        },
{
    let chars = chars_of(name);
    let l = to_lower(&chars);
    proof {
        reveal_strlit("tar");
        reveal_strlit("zip");
    }
    // Two-part extensions have to be checked before the single-part ones,
    // or `backup.tar.gz` would look like a file of type "gz".
    let tgz: Vec<char> = vec!['.', 't', 'a', 'r', '.', 'g', 'z'];
    let tar: Vec<char> = vec!['.', 't', 'a', 'r'];
    let tgz_short: Vec<char> = vec!['.', 't', 'g', 'z'];
    assert(tgz@ =~= tar_gz());
    assert(tar@ =~= dot_tar());
    assert(tgz_short@ =~= dot_tgz());
    if longer_and_ends_with(&l, &tgz) || longer_and_ends_with(&l, &tar) || longer_and_ends_with(&l, &tgz_short) {
        return Some("tar");
    }
    // A leading dot is a hidden file, not an extension, and a trailing dot is not
    // one either.
    proof {
        crate::entry::lemma_rfind(chars@, '.');
    }
    let dot = match rfind_char(&chars, '.') {
        Some(d) => d,
        None => return None,
    };
    let ghost not_tar = !(l@.len() > tar_gz().len() && ends_with(l@, tar_gz())) && !(l@.len() > dot_tar().len()
        && ends_with(l@, dot_tar())) && !(l@.len() > dot_tgz().len() && ends_with(l@, dot_tgz()));
    if dot == 0 || dot == chars.len() - 1 {
        return None;
    }
    let exts: Vec<Vec<char>> = vec![
        vec!['z', 'i', 'p'],
        vec!['j', 'a', 'r'],
        vec!['w', 'a', 'r'],
        vec!['e', 'a', 'r'],
        vec!['a', 'p', 'k'],
        vec!['x', 'p', 'i'],
        vec!['e', 'p', 'u', 'b'],
        vec!['o', 'd', 't'],
        vec!['o', 'd', 's'],
        vec!['o', 'd', 'p'],
    ];
    let ghost want = zip_extensions();
    proof {
        assert(exts@.len() == want.len());
        assert(exts@[0]@ =~= want[0]);
        assert(exts@[1]@ =~= want[1]);
        assert(exts@[2]@ =~= want[2]);
        assert(exts@[3]@ =~= want[3]);
        assert(exts@[4]@ =~= want[4]);
        assert(exts@[5]@ =~= want[5]);
        assert(exts@[6]@ =~= want[6]);
        assert(exts@[7]@ =~= want[7]);
        assert(exts@[8]@ =~= want[8]);
        assert(exts@[9]@ =~= want[9]);
    }
    let cl = chars.len();
    let mut i: usize = 0;
    while i < exts.len()
        invariant
            i <= exts@.len(),
            not_tar,
            l@ == lower(name@),
            chars@ == name@,
            rfind(name@, '.') == Some(dot as int),
            dot != 0,
            dot + 1 < chars@.len(),
            cl == chars@.len(),
            exts@.len() == want.len(),
            want == zip_extensions(),
            forall|k: int| 0 <= k < exts@.len() ==> #[trigger] exts@[k]@ == want[k],
            dot + 1 <= l@.len(),
            l@.len() == chars@.len(),
            forall|k: int| 0 <= k < i ==> #[trigger] want[k] != l@.skip(dot + 1),
        decreases exts@.len() - i,
    {
        if rest_is(&l, dot + 1, &exts[i]) {
            assert(want[i as int] == l@.skip(dot + 1));
            proof {
                reveal_strlit("zip");
            }
            return Some("zip");
        }
        i += 1;
    }
    None
}

/// Whether the first bytes of a file are those every gzip stream starts with,
/// which is how a compressed TAR is told from a plain one.
pub fn looks_gzipped(start: &[u8]) -> (r: bool)
    ensures
        r == (start@.len() >= 2 && start@[0] == 0x1f && start@[1] == 0x8b),
{
    start.len() >= 2 && start[0] == 0x1f && start[1] == 0x8b
}

} // verus!
