//! One file, folder or link inside a directory listing.
use vstd::prelude::*;

use crate::vpath::{PathV, VPath};

verus! {

/// What a symlink resolves to.
#[derive(Debug, Clone, Copy, PartialEq, Eq, Structural)]
pub enum LinkTarget {
    File,
    Dir,
    Other,
}

/// What kind of thing a directory entry is.
#[derive(Debug, Clone, Copy, PartialEq, Eq, Structural)]
pub enum EntryKind {
    File,
    Dir,
    /// A symbolic link. `target` is what the link points at, or `None` if the
    /// link is broken.
    Symlink { target: Option<LinkTarget> },
    /// Sockets, FIFOs, device files, ...
    Other,
}

impl EntryKind {
    pub open spec fn spec_is_dir_like(self) -> bool {
        self is Dir || self == (EntryKind::Symlink { target: Some(LinkTarget::Dir) })
    }

    /// True for folders and for links that point at folders — things you can "enter".
    pub fn is_dir_like(self) -> (r: bool)
        ensures
            r == self.spec_is_dir_like(),
    {
        match self {
            EntryKind::Dir => true,
            EntryKind::Symlink { target: Some(LinkTarget::Dir) } => true,
            _ => false,
        }
    }
}

/// Permission info. Kept deliberately small and cross-platform.
#[derive(Debug, Clone, Copy, PartialEq, Eq, Structural)]
pub struct Permissions {
    pub readonly: bool,
    /// Unix permission bits like `0o755`. `None` on Windows.
    pub unix_mode: Option<u32>,
}

/// One file, folder, or link inside a directory listing.
///
/// Times are nanoseconds since the Unix epoch (negative before it).
#[derive(Debug, PartialEq, Eq)]
pub struct Entry {
    /// Just the file name, e.g. `report.pdf`.
    pub name: String,
    /// Full address of the entry.
    pub path: VPath,
    pub kind: EntryKind,
    /// Size in bytes. Folders report 0.
    pub size: u64,
    pub modified: Option<i128>,
    pub created: Option<i128>,
    pub accessed: Option<i128>,
    pub permissions: Permissions,
    /// Dotfiles on Unix, the "hidden" attribute on Windows.
    pub hidden: bool,
    /// Where a symlink points (the raw link text), if this is a symlink.
    pub link_target: Option<String>,
}

/// What an [`Entry`] holds, as plain values.
pub struct EntryV {
    pub name: Seq<char>,
    pub path: PathV,
    pub kind: EntryKind,
    pub size: u64,
    pub modified: Option<i128>,
    pub created: Option<i128>,
    pub accessed: Option<i128>,
    pub permissions: Permissions,
    pub hidden: bool,
    pub link_target: Option<Seq<char>>,
}

pub open spec fn opt_string_view(o: Option<String>) -> Option<Seq<char>> {
    match o {
        Some(s) => Some(s@),
        None => None,
    }
}

impl View for Entry {
    type V = EntryV;

    open spec fn view(&self) -> EntryV {
        EntryV {
            name: self.name@,
            path: self.path@,
            kind: self.kind,
            size: self.size,
            modified: self.modified,
            created: self.created,
            accessed: self.accessed,
            permissions: self.permissions,
            hidden: self.hidden,
            link_target: opt_string_view(self.link_target),
        }
    }
}

pub fn clone_opt_string(o: &Option<String>) -> (r: Option<String>)
    ensures
        opt_string_view(r) == opt_string_view(*o),
{
    match o {
        Some(s) => Some(s.clone()),
        None => None,
    }
}

impl Clone for Entry {
    fn clone(&self) -> (r: Self)
        ensures
            r@ == self@,
    {
        Entry {
            name: self.name.clone(),
            path: self.path.clone(),
            kind: self.kind,
            size: self.size,
            modified: self.modified,
            created: self.created,
            accessed: self.accessed,
            permissions: self.permissions,
            hidden: self.hidden,
            link_target: clone_opt_string(&self.link_target),
        }
    }
}

/// The index of the last `c` in `s`.
pub open spec fn rfind(s: Seq<char>, c: char) -> Option<int>
    decreases s.len(),
{
    if s.len() == 0 {
        None
    } else if s.last() == c {
        Some(s.len() - 1)
    } else {
        rfind(s.drop_last(), c)
    }
}

/// The extension of a file called `name`: what follows its last dot, unless
/// that dot is the first or the last character.
pub open spec fn name_extension(name: Seq<char>) -> Option<Seq<char>> {
    match rfind(name, '.') {
        Some(d) => if d == 0 || d == name.len() - 1 {
            None
        } else {
            Some(name.skip(d + 1))
        },
        None => None,
    }
}

pub open spec fn spec_extension(e: EntryV) -> Option<Seq<char>> {
    if e.kind.spec_is_dir_like() {
        None
    } else {
        name_extension(e.name)
    }
}

pub open spec fn spec_stem(e: EntryV) -> Seq<char> {
    match spec_extension(e) {
        Some(x) => e.name.take(e.name.len() - x.len() - 1),
        None => e.name,
    }
}

pub proof fn lemma_rfind(s: Seq<char>, c: char)
    ensures
        rfind(s, c) matches Some(i) ==> 0 <= i < s.len() && s[i] == c && forall|k: int| i < k < s.len() ==> s[k] != c,
        rfind(s, c) is None ==> forall|k: int| 0 <= k < s.len() ==> s[k] != c,
    decreases s.len(),
{
    if s.len() > 0 && s.last() != c {
        let t = s.drop_last();
        lemma_rfind(t, c);
        assert forall|k: int| 0 <= k < t.len() implies t[k] == s[k] by {}
    }
}

/// The index of the last `c` in `s`.
pub fn rfind_char(s: &[char], c: char) -> (r: Option<usize>)
    ensures
        match rfind(s@, c) {
            Some(i) => r == Some(i as usize),
            None => r is None,
        },
{
    let mut j = s.len();
    proof {
        assert(s@.take(j as int) =~= s@);
    }
    while j > 0
        invariant
            j <= s@.len(),
            rfind(s@, c) == rfind(s@.take(j as int), c),
        decreases j,
    {
        if s[j - 1] == c {
            return Some(j - 1);
        }
        assert(s@.take(j as int).drop_last() =~= s@.take(j - 1));
        j -= 1;
    }
    None
}

impl Entry {
    /// The extension without the dot: `archive.tar.gz` → `gz`, `.bashrc` → `None`
    /// (a leading dot is not an extension), folders → `None`.
    pub fn extension(&self) -> (r: Option<&str>)
        ensures
            match spec_extension(self@) {
                Some(x) => r matches Some(s) && s@ == x,
                None => r is None,
            },
    {
        if self.kind.is_dir_like() {
            return None;
        }
        let chars = crate::text::chars_of(self.name.as_str());
        let dot = match rfind_char(&chars, '.') {
            Some(d) => d,
            None => return None,
        };
        proof {
            lemma_rfind(self.name@, '.');
        }
        if dot == 0 || dot == chars.len() - 1 {
            return None;
        }
        Some(self.name.as_str().substring_char(dot + 1, chars.len()))
    }

    /// The name without its extension (`report.pdf` → `report`).
    pub fn stem(&self) -> (r: &str)
        ensures
            r@ == spec_stem(self@),
    {
        match self.extension() {
            Some(ext) => {
                let n = crate::text::chars_of(self.name.as_str()).len();
                let k = crate::text::chars_of(ext).len();
                proof {
                    lemma_rfind(self.name@, '.');
                }
                self.name.as_str().substring_char(0, n - k - 1)
            },
            None => self.name.as_str(),
        }
    }
}

} // verus!
