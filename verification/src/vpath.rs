//! Virtual paths: one address format for every place a file can live.
//!
//! A [`VPath`] is a **base** (where the outermost file system lives) plus a stack of
//! **layers** (containers opened along the way, innermost last). Its text form is
//! the URI style of Apache Commons VFS:
//!
//! ```text
//!   file:///home/me/notes.txt
//!   sftp://me@host:22/home/me/notes.txt
//!   zip:file:///home/me/photos.zip!/2024/img.jpg
//! ```
use vstd::prelude::*;
use vstd::string::*;
use vstd::utf8::*;

use crate::error::{Error, Result};
use crate::text::{split_on, char_vecs, strings, chars_of, string_of, split_chars, push_char, clone_strings, chars_eq, strings_eq, strings_prefix, string_from_utf8};

verus! {

// ---------------------------------------------------------------------------------------------
// The mathematical model
// ---------------------------------------------------------------------------------------------

/// Where the outermost file system lives, as plain values.
pub enum BaseV {
    /// The names from the root of the local disk down.
    Local(Seq<Seq<char>>),
    /// Scheme, authority and the names from the server's root down.
    Remote(Seq<char>, Seq<char>, Seq<Seq<char>>),
}

/// One opened container: its format and the names inside it.
pub struct LayerV {
    pub kind: Seq<char>,
    pub parts: Seq<Seq<char>>,
}

/// What a [`VPath`] denotes.
pub struct PathV {
    pub base: BaseV,
    pub layers: Seq<LayerV>,
}

pub open spec fn is_ascii_alpha(c: char) -> bool {
    ('a' <= c && c <= 'z') || ('A' <= c && c <= 'Z')
}

pub open spec fn is_ascii_digit(c: char) -> bool {
    '0' <= c && c <= '9'
}

pub open spec fn is_scheme_char(c: char) -> bool {
    is_ascii_alpha(c) || is_ascii_digit(c) || c == '+' || c == '-' || c == '.'
}

/// URI scheme rules (RFC 3986): a letter, then letters, digits, `+`, `-`, `.`;
/// and at least two characters, since a single letter before a colon is a
/// Windows drive, which is how the text form tells the two apart. Every scheme
/// a path is built with therefore reads back from its text.
pub open spec fn valid_scheme(s: Seq<char>) -> bool {
    &&& s.len() >= 2
    &&& is_ascii_alpha(s[0])
    &&& forall|i: int| 1 <= i < s.len() ==> is_scheme_char(#[trigger] s[i])
}

pub open spec fn lower_char(c: char) -> char {
    if 'A' <= c && c <= 'Z' {
        ((c as u32) + 32) as char
    } else {
        c
    }
}

/// ASCII lowercasing; everything else is left alone.
pub open spec fn lower(s: Seq<char>) -> Seq<char> {
    s.map_values(|c: char| lower_char(c))
}

pub open spec fn file_word() -> Seq<char> {
    seq!['f', 'i', 'l', 'e']
}

pub open spec fn is_file_scheme(s: Seq<char>) -> bool {
    lower(s) == file_word()
}

pub open spec fn dot() -> Seq<char> {
    seq!['.']
}

pub open spec fn dot_dot() -> Seq<char> {
    seq!['.', '.']
}

/// A single file name: not empty, not `.`/`..`, no `/`, no NUL.
pub open spec fn valid_name(s: Seq<char>) -> bool {
    &&& s.len() > 0
    &&& s != dot()
    &&& s != dot_dot()
    &&& !s.contains('/')
    &&& !s.contains('\0')
}

pub open spec fn valid_authority(a: Seq<char>) -> bool {
    a.len() > 0 && !a.contains('/') && !a.contains('!')
}

pub open spec fn remote_ok(scheme: Seq<char>, authority: Seq<char>) -> bool {
    valid_scheme(scheme) && !is_file_scheme(scheme) && valid_authority(authority)
}

/// Lexical normalization of the `/`-separated pieces of an inner path:
/// empty and `.` pieces vanish, `..` removes the name before it (never
/// climbing above the root).
pub open spec fn normalize(pieces: Seq<Seq<char>>) -> Seq<Seq<char>>
    decreases pieces.len(),
{
    if pieces.len() == 0 {
        Seq::empty()
    } else {
        let prev = normalize(pieces.drop_last());
        let p = pieces.last();
        if p.len() == 0 || p == dot() {
            prev
        } else if p == dot_dot() {
            if prev.len() > 0 {
                prev.drop_last()
            } else {
                prev
            }
        } else {
            prev.push(p)
        }
    }
}

/// The components of a native path: empty and `.` pieces vanish, `..` stays.
pub open spec fn native_pieces(pieces: Seq<Seq<char>>) -> Seq<Seq<char>>
    decreases pieces.len(),
{
    if pieces.len() == 0 {
        Seq::empty()
    } else {
        let prev = native_pieces(pieces.drop_last());
        let p = pieces.last();
        if p.len() == 0 || p == dot() {
            prev
        } else {
            prev.push(p)
        }
    }
}

pub open spec fn native_parts(s: Seq<char>) -> Seq<Seq<char>> {
    native_pieces(split_on(s, '/'))
}

pub open spec fn local_part_ok(p: Seq<char>) -> bool {
    p.len() > 0 && p != dot() && !p.contains('/')
}

/// A name on a server: never NUL, which no name can hold and the text form
/// can't carry back.
pub open spec fn remote_part_ok(p: Seq<char>) -> bool {
    local_part_ok(p) && p != dot_dot() && !p.contains('\0')
}

pub open spec fn valid_kind(k: Seq<char>) -> bool {
    valid_scheme(k) && lower(k) == k
}

impl PathV {
    /// What every [`VPath`] satisfies.
    pub open spec fn wf(self) -> bool {
        &&& match self.base {
            BaseV::Local(parts) => forall|i: int| 0 <= i < parts.len() ==> local_part_ok(#[trigger] parts[i]),
            BaseV::Remote(scheme, authority, parts) => {
                &&& valid_kind(scheme)
                &&& !is_file_scheme(scheme)
                &&& valid_authority(authority)
                &&& forall|i: int| 0 <= i < parts.len() ==> remote_part_ok(#[trigger] parts[i])
            },
        }
        &&& forall|i: int| 0 <= i < self.layers.len() ==> (#[trigger] self.layers[i]).wf()
    }
}

impl LayerV {
    pub open spec fn wf(self) -> bool {
        &&& valid_kind(self.kind)
        &&& forall|j: int| 0 <= j < self.parts.len() ==> valid_name(#[trigger] self.parts[j])
    }
}

/// The child `name` inside the folder `p`.
pub open spec fn spec_join(p: PathV, name: Seq<char>) -> PathV {
    if p.layers.len() > 0 {
        let l = p.layers.last();
        PathV {
            base: p.base,
            layers: p.layers.update(
                p.layers.len() - 1,
                LayerV { kind: l.kind, parts: l.parts.push(name) },
            ),
        }
    } else {
        match p.base {
            BaseV::Local(parts) => PathV { base: BaseV::Local(parts.push(name)), layers: p.layers },
            BaseV::Remote(s, a, parts) => PathV {
                base: BaseV::Remote(s, a, parts.push(name)),
                layers: p.layers,
            },
        }
    }
}

/// The folder containing `p`; leaving an archive's root lands beside the archive file.
pub open spec fn spec_parent(p: PathV) -> Option<PathV>
    decreases p.layers.len(),
{
    if p.layers.len() > 0 {
        let l = p.layers.last();
        if l.parts.len() > 0 {
            Some(
                PathV {
                    base: p.base,
                    layers: p.layers.update(
                        p.layers.len() - 1,
                        LayerV { kind: l.kind, parts: l.parts.drop_last() },
                    ),
                },
            )
        } else {
            spec_parent(PathV { base: p.base, layers: p.layers.drop_last() })
        }
    } else {
        match p.base {
            BaseV::Local(parts) => if parts.len() > 0 {
                Some(PathV { base: BaseV::Local(parts.drop_last()), layers: Seq::empty() })
            } else {
                None
            },
            BaseV::Remote(s, a, parts) => if parts.len() > 0 {
                Some(PathV { base: BaseV::Remote(s, a, parts.drop_last()), layers: Seq::empty() })
            } else {
                None
            },
        }
    }
}

/// The last name in `p`; at an archive's root, the archive's own name.
pub open spec fn spec_file_name(p: PathV) -> Option<Seq<char>>
    decreases p.layers.len(),
{
    if p.layers.len() > 0 {
        let l = p.layers.last();
        if l.parts.len() > 0 {
            Some(l.parts.last())
        } else {
            spec_file_name(PathV { base: p.base, layers: p.layers.drop_last() })
        }
    } else {
        match p.base {
            // A native path that ends in `..` has no file name.
            BaseV::Local(parts) => if parts.len() > 0 && parts.last() != dot_dot() {
                Some(parts.last())
            } else {
                None
            },
            BaseV::Remote(_, _, parts) => if parts.len() > 0 {
                Some(parts.last())
            } else {
                None
            },
        }
    }
}

/// The path of the innermost container file itself.
pub open spec fn spec_outer(p: PathV) -> Option<PathV> {
    if p.layers.len() > 0 {
        Some(PathV { base: p.base, layers: p.layers.drop_last() })
    } else {
        None
    }
}

/// True if `a` is `b` or somewhere inside it.
pub open spec fn spec_starts_with(a: PathV, b: PathV) -> bool {
    let n = b.layers.len();
    if n > a.layers.len() {
        false
    } else if n == 0 {
        match (a.base, b.base) {
            (BaseV::Local(x), BaseV::Local(y)) => y.len() <= x.len() && x.take(y.len() as int) == y,
            (BaseV::Remote(s1, a1, x), BaseV::Remote(s2, a2, y)) => {
                &&& s1 == s2
                &&& a1 == a2
                &&& y.len() <= x.len()
                &&& x.take(y.len() as int) == y
            },
            _ => false,
        }
    } else {
        let mine = a.layers[n - 1];
        let theirs = b.layers[n - 1];
        &&& a.base == b.base
        &&& a.layers.take(n - 1) == b.layers.take(n - 1)
        &&& mine.kind == theirs.kind
        &&& theirs.parts.len() <= mine.parts.len()
        &&& mine.parts.take(theirs.parts.len() as int) == theirs.parts
    }
}

// ---- The human-friendly text form ----

/// `/a/b`, or `/` for the root.
pub open spec fn slash_joined(parts: Seq<Seq<char>>) -> Seq<char>
    decreases parts.len(),
{
    if parts.len() == 0 {
        Seq::empty()
    } else {
        slash_joined(parts.drop_last()) + seq!['/'] + parts.last()
    }
}

pub open spec fn inner_text(parts: Seq<Seq<char>>) -> Seq<char> {
    if parts.len() == 0 {
        seq!['/']
    } else {
        slash_joined(parts)
    }
}

pub open spec fn layers_text(layers: Seq<LayerV>) -> Seq<char>
    decreases layers.len(),
{
    if layers.len() == 0 {
        Seq::empty()
    } else {
        layers_text(layers.drop_last()) + seq!['!'] + inner_text(layers.last().parts)
    }
}

pub open spec fn colon_slash_slash() -> Seq<char> {
    seq![':', '/', '/']
}

/// Native local paths, no percent-encoding, and `!` between a container and the path inside it.
pub open spec fn spec_display(p: PathV) -> Seq<char> {
    let base = match p.base {
        BaseV::Local(parts) => inner_text(parts),
        BaseV::Remote(s, a, parts) => s + colon_slash_slash() + a + inner_text(parts),
    };
    base + layers_text(p.layers)
}

} // verus!

verus! {

// ---------------------------------------------------------------------------------------------
// The types
// ---------------------------------------------------------------------------------------------

/// A `/`-separated absolute path inside a non-local file system (archive, server),
/// kept as its list of names.
#[derive(Debug, PartialEq, Eq, Hash)]
pub struct InnerPath {
    parts: Vec<String>,
}

impl View for InnerPath {
    type V = Seq<Seq<char>>;

    closed spec fn view(&self) -> Seq<Seq<char>> {
        strings(self.parts@)
    }
}

impl Clone for InnerPath {
    fn clone(&self) -> (r: Self)
        ensures
            r@ == self@,
    {
        InnerPath { parts: clone_strings(&self.parts) }
    }
}

impl Default for InnerPath {
    fn default() -> (r: Self)
        ensures
            r@ == Seq::<Seq<char>>::empty(),
    {
        let r = InnerPath { parts: Vec::new() };
        assert(r@ =~= Seq::<Seq<char>>::empty());
        r
    }
}

/// Where the outermost file system lives.
#[derive(Debug, PartialEq, Eq, Hash)]
pub enum Base {
    /// An absolute path on this computer, kept as its names from the root down.
    Local(InnerPath),
    /// A file system reached over the network, e.g. `sftp` + `me@host:22` + `/home/me`.
    Remote { scheme: String, authority: String, path: InnerPath },
}

impl View for Base {
    type V = BaseV;

    open spec fn view(&self) -> BaseV {
        match self {
            Base::Local(p) => BaseV::Local(p@),
            Base::Remote { scheme, authority, path } => BaseV::Remote(scheme@, authority@, path@),
        }
    }
}

impl Clone for Base {
    fn clone(&self) -> (r: Self)
        ensures
            r@ == self@,
    {
        match self {
            Base::Local(p) => Base::Local(p.clone()),
            Base::Remote { scheme, authority, path } => Base::Remote {
                scheme: scheme.clone(),
                authority: authority.clone(),
                path: path.clone(),
            },
        }
    }
}

/// A container opened as a folder, e.g. a ZIP file.
#[derive(Debug, PartialEq, Eq, Hash)]
pub struct Layer {
    pub kind: String,
    pub path: InnerPath,
}

impl View for Layer {
    type V = LayerV;

    open spec fn view(&self) -> LayerV {
        LayerV { kind: self.kind@, parts: self.path@ }
    }
}

impl Clone for Layer {
    fn clone(&self) -> (r: Self)
        ensures
            r@ == self@,
    {
        Layer { kind: self.kind.clone(), path: self.path.clone() }
    }
}

pub open spec fn layer_views(v: Seq<Layer>) -> Seq<LayerV> {
    v.map_values(|l: Layer| l@)
}

/// A location anywhere: local disk, remote server, or inside an archive.
#[derive(Debug, PartialEq, Eq, Hash)]
pub struct VPath {
    base: Base,
    layers: Vec<Layer>,
}

impl View for VPath {
    type V = PathV;

    closed spec fn view(&self) -> PathV {
        PathV { base: self.base@, layers: layer_views(self.layers@) }
    }
}

fn clone_layers(v: &Vec<Layer>) -> (r: Vec<Layer>)
    ensures
        layer_views(r@) == layer_views(v@),
{
    let mut r: Vec<Layer> = Vec::new();
    let mut i: usize = 0;
    while i < v.len()
        invariant
            i <= v@.len(),
            r@.len() == i,
            forall|j: int| 0 <= j < i ==> (#[trigger] r@[j])@ == v@[j]@,
        decreases v@.len() - i,
    {
        let c = v[i].clone();
        r.push(c);
        i += 1;
    }
    assert(layer_views(r@) =~= layer_views(v@));
    r
}

impl Clone for VPath {
    fn clone(&self) -> (r: Self)
        ensures
            r@ == self@,
    {
        VPath { base: self.base.clone(), layers: clone_layers(&self.layers) }
    }
}

// ---------------------------------------------------------------------------------------------
// Small helpers
// ---------------------------------------------------------------------------------------------

fn is_dot(p: &[char]) -> (r: bool)
    ensures
        r == (p@ == dot()),
{
    if p.len() == 1 && p[0] == '.' {
        assert(p@ =~= dot());
        true
    } else {
        false
    }
}

fn is_dot_dot(p: &[char]) -> (r: bool)
    ensures
        r == (p@ == dot_dot()),
{
    if p.len() == 2 && p[0] == '.' && p[1] == '.' {
        assert(p@ =~= dot_dot());
        true
    } else {
        false
    }
}

fn str_is_dot_dot(s: &String) -> (r: bool)
    ensures
        r == (s@ == dot_dot()),
{
    let c = chars_of(s.as_str());
    is_dot_dot(&c)
}

/// Appends `s` to `out`.
fn push_all(out: &mut String, s: &str)
    ensures
        final(out)@ == old(out)@ + s@,
{
    out.append(s);
}

fn push_chars(out: &mut String, s: &[char])
    ensures
        final(out)@ == old(out)@ + s@,
{
    let ghost start = out@;
    let mut i: usize = 0;
    while i < s.len()
        invariant
            i <= s@.len(),
            out@ == start + s@.take(i as int),
        decreases s@.len() - i,
    {
        push_char(out, s[i]);
        i += 1;
        assert(start + s@.take(i as int) =~= (start + s@.take(i - 1)).push(s@[i - 1]));
    }
    assert(s@.take(s@.len() as int) =~= s@);
}

// ---------------------------------------------------------------------------------------------
// InnerPath
// ---------------------------------------------------------------------------------------------

impl InnerPath {
    /// Lexically normalizes `a//b/./c/../d` into `/a/b/d`. Never fails: `..` at the root stays at the root.
    pub fn parse(s: &str) -> (r: InnerPath)
        ensures
            r@ == normalize(split_on(s@, '/')),
    {
        let chars = chars_of(s);
        let pieces = split_chars(&chars, '/');
        let mut parts: Vec<String> = Vec::new();
        let mut i: usize = 0;
        while i < pieces.len()
            invariant
                i <= pieces@.len(),
                char_vecs(pieces@) == split_on(s@, '/'),
                strings(parts@) == normalize(char_vecs(pieces@).take(i as int)),
            decreases pieces@.len() - i,
        {
            let piece = &pieces[i];
            let ghost taken = char_vecs(pieces@).take(i + 1);
            proof {
                assert(taken.drop_last() =~= char_vecs(pieces@).take(i as int));
                assert(taken.last() == piece@);
            }
            if piece.len() == 0 || is_dot(piece) {
            } else if is_dot_dot(piece) {
                if parts.len() > 0 {
                    parts.pop();
                    assert(strings(parts@) =~= normalize(taken));
                }
            } else {
                parts.push(string_of(piece));
                assert(strings(parts@) =~= normalize(taken));
            }
            i += 1;
        }
        assert(char_vecs(pieces@).take(pieces@.len() as int) =~= char_vecs(pieces@));
        InnerPath { parts }
    }

    pub fn is_root(&self) -> (r: bool)
        ensures
            r == (self@.len() == 0),
    {
        self.parts.len() == 0
    }

    pub fn parts(&self) -> (r: &[String])
        ensures
            strings(r@) == self@,
    {
        self.parts.as_slice()
    }

    pub fn file_name(&self) -> (r: Option<&str>)
        ensures
            r is Some <==> self@.len() > 0,
            r matches Some(s) ==> s@ == self@.last(),
    {
        let n = self.parts.len();
        if n == 0 {
            None
        } else {
            Some(self.parts[n - 1].as_str())
        }
    }

    pub fn parent(&self) -> (r: Option<InnerPath>)
        ensures
            r is Some <==> self@.len() > 0,
            r matches Some(p) ==> p@ == self@.drop_last(),
    {
        if self.parts.len() == 0 {
            return None;
        }
        let mut parts = clone_strings(&self.parts);
        parts.pop();
        let r = InnerPath { parts };
        assert(r@ =~= self@.drop_last());
        Some(r)
    }

    /// `/a/b`, or `/` for the root.
    pub fn to_string(&self) -> (r: String)
        ensures
            r@ == inner_text(self@),
    {
        let mut out = String::new();
        if self.parts.len() == 0 {
            push_char(&mut out, '/');
            assert(out@ =~= seq!['/']);
            return out;
        }
        let mut i: usize = 0;
        while i < self.parts.len()
            invariant
                i <= self@.len(),
                self@.len() > 0,
                out@ == slash_joined(self@.take(i as int)),
            decreases self@.len() - i,
        {
            push_char(&mut out, '/');
            push_all(&mut out, self.parts[i].as_str());
            i += 1;
            assert(self@.take(i as int).drop_last() =~= self@.take(i - 1));
        }
        assert(self@.take(self@.len() as int) =~= self@);
        out
    }

    fn push(&mut self, name: String)
        ensures
            final(self)@ == old(self)@.push(name@),
    {
        self.parts.push(name);
        assert(self@ =~= old(self)@.push(name@));
    }

    fn pop(&mut self)
        requires
            old(self)@.len() > 0,
        ensures
            final(self)@ == old(self)@.drop_last(),
    {
        self.parts.pop();
        assert(self@ =~= old(self)@.drop_last());
    }
}

} // verus!

verus! {

// ---------------------------------------------------------------------------------------------
// Checks on text
// ---------------------------------------------------------------------------------------------

/// A character that `s` doesn't hold is in none of its pieces.
pub proof fn lemma_split_on_keeps_out(s: Seq<char>, sep: char, c: char)
    requires
        !s.contains(c),
    ensures
        forall|i: int| 0 <= i < split_on(s, sep).len() ==> !(#[trigger] split_on(s, sep)[i]).contains(c),
    decreases s.len(),
{
    crate::text::lemma_split_on_nonempty(s, sep);
    if s.len() > 0 {
        let d = s.drop_last();
        assert(!d.contains(c)) by {
            if d.contains(c) {
                let k = choose|k: int| 0 <= k < d.len() && d[k] == c;
                assert(s[k] == c);
            }
        }
        lemma_split_on_keeps_out(d, sep, c);
        crate::text::lemma_split_on_nonempty(d, sep);
        let p = split_on(d, sep);
        assert(s.last() != c) by {
            assert(s[s.len() - 1] == s.last());
        }
        assert forall|i: int| 0 <= i < split_on(s, sep).len() implies !(#[trigger] split_on(s, sep)[i]).contains(c) by {
            if s.last() != sep && i == p.len() - 1 {
                let q = p.last().push(s.last());
                assert(!p[i].contains(c));
                if q.contains(c) {
                    let k = choose|k: int| 0 <= k < q.len() && q[k] == c;
                    if k < q.len() - 1 {
                        assert(p[i][k] == c);
                    }
                }
            } else if i < p.len() {
                assert(split_on(s, sep)[i] == p[i]);
            }
        }
    }
}

pub proof fn lemma_split_on_no_sep(s: Seq<char>, sep: char)
    ensures
        forall|i: int| 0 <= i < split_on(s, sep).len() ==> !(#[trigger] split_on(s, sep)[i]).contains(sep),
    decreases s.len(),
{
    crate::text::lemma_split_on_nonempty(s, sep);
    if s.len() > 0 {
        lemma_split_on_no_sep(s.drop_last(), sep);
        crate::text::lemma_split_on_nonempty(s.drop_last(), sep);
        let p = split_on(s.drop_last(), sep);
        if s.last() != sep {
            assert forall|i: int| 0 <= i < split_on(s, sep).len() implies !(#[trigger] split_on(s, sep)[i]).contains(sep) by {
                if i == p.len() - 1 {
                    let q = p.last().push(s.last());
                    assert(!p[i].contains(sep));
                    if q.contains(sep) {
                        let k = choose|k: int| 0 <= k < q.len() && q[k] == sep;
                        if k < q.len() - 1 {
                            assert(p[i][k] == sep);
                        }
                    }
                }
            }
        } else {
            assert forall|i: int| 0 <= i < split_on(s, sep).len() implies !(#[trigger] split_on(s, sep)[i]).contains(sep) by {
                if i < p.len() {
                    assert(split_on(s, sep)[i] == p[i]);
                }
            }
        }
    }
}

pub proof fn lemma_native_pieces_ok(pieces: Seq<Seq<char>>)
    requires
        forall|i: int| 0 <= i < pieces.len() ==> !(#[trigger] pieces[i]).contains('/'),
    ensures
        forall|i: int| 0 <= i < native_pieces(pieces).len() ==> local_part_ok(#[trigger] native_pieces(pieces)[i]),
    decreases pieces.len(),
{
    if pieces.len() > 0 {
        let d = pieces.drop_last();
        assert forall|i: int| 0 <= i < d.len() implies !(#[trigger] d[i]).contains('/') by {
            assert(d[i] == pieces[i]);
        }
        lemma_native_pieces_ok(d);
        assert(!pieces[pieces.len() - 1].contains('/'));
        let prev = native_pieces(d);
        assert forall|i: int| 0 <= i < native_pieces(pieces).len() implies local_part_ok(#[trigger] native_pieces(pieces)[i]) by {
            if i < prev.len() {
                assert(local_part_ok(prev[i]));
            }
        }
    }
}

pub proof fn lemma_normalize_ok(pieces: Seq<Seq<char>>)
    requires
        forall|i: int| 0 <= i < pieces.len() ==> !(#[trigger] pieces[i]).contains('/') && !pieces[i].contains('\0'),
    ensures
        forall|i: int| 0 <= i < normalize(pieces).len() ==> remote_part_ok(#[trigger] normalize(pieces)[i]),
    decreases pieces.len(),
{
    if pieces.len() > 0 {
        let d = pieces.drop_last();
        assert forall|i: int| 0 <= i < d.len() implies !(#[trigger] d[i]).contains('/') && !d[i].contains('\0') by {
            assert(d[i] == pieces[i]);
        }
        lemma_normalize_ok(d);
        assert(!pieces[pieces.len() - 1].contains('/'));
        assert(!pieces[pieces.len() - 1].contains('\0'));
        let prev = normalize(pieces.drop_last());
        assert forall|i: int| 0 <= i < normalize(pieces).len() implies remote_part_ok(#[trigger] normalize(pieces)[i]) by {
            if i < prev.len() {
                assert(remote_part_ok(prev[i]));
            }
        }
    }
}

fn is_alpha(c: char) -> (r: bool)
    ensures
        r == is_ascii_alpha(c),
{
    ('a' <= c && c <= 'z') || ('A' <= c && c <= 'Z')
}

fn is_scheme_char_exec(c: char) -> (r: bool)
    ensures
        r == is_scheme_char(c),
{
    is_alpha(c) || ('0' <= c && c <= '9') || c == '+' || c == '-' || c == '.'
}

/// URI scheme rules (RFC 3986): a letter, then letters, digits, `+`, `-`, `.`.
fn check_scheme(s: &[char]) -> (r: bool)
    ensures
        r == valid_scheme(s@),
{
    if s.len() < 2 || !is_alpha(s[0]) {
        return false;
    }
    let mut i: usize = 1;
    while i < s.len()
        invariant
            1 <= i <= s@.len(),
            forall|j: int| 1 <= j < i ==> is_scheme_char(#[trigger] s@[j]),
        decreases s@.len() - i,
    {
        if !is_scheme_char_exec(s[i]) {
            return false;
        }
        i += 1;
    }
    true
}

fn lower_char_exec(c: char) -> (r: char)
    ensures
        r == lower_char(c),
{
    if 'A' <= c && c <= 'Z' {
        let v = (c as u32) + 32;
        proof {
            assert(v < 0xD800);
        }
        char_from_ascii(v)
    } else {
        c
    }
}

fn char_from_ascii(v: u32) -> (r: char)
    requires
        v < 128,
    ensures
        r == v as char,
{
    let b = v as u8;
    b as char
}

pub(crate) fn to_lower(s: &[char]) -> (r: Vec<char>)
    ensures
        r@ == lower(s@),
{
    let mut r: Vec<char> = Vec::new();
    let mut i: usize = 0;
    while i < s.len()
        invariant
            i <= s@.len(),
            r@ == lower(s@.take(i as int)),
        decreases s@.len() - i,
    {
        r.push(lower_char_exec(s[i]));
        i += 1;
        assert(r@ =~= lower(s@.take(i as int)));
    }
    assert(s@.take(s@.len() as int) =~= s@);
    r
}

fn lowercase_string(s: &[char]) -> (r: String)
    ensures
        r@ == lower(s@),
{
    let l = to_lower(s);
    string_of(&l)
}

fn is_file_scheme_exec(s: &[char]) -> (r: bool)
    ensures
        r == is_file_scheme(s@),
{
    let l = to_lower(s);
    let f = ['f', 'i', 'l', 'e'];
    let r = chars_eq(&l, &f);
    assert(f@ =~= file_word());
    r
}

fn contains_char(s: &[char], c: char) -> (r: bool)
    ensures
        r == s@.contains(c),
{
    let mut i: usize = 0;
    while i < s.len()
        invariant
            i <= s@.len(),
            forall|j: int| 0 <= j < i ==> s@[j] != c,
        decreases s@.len() - i,
    {
        if s[i] == c {
            assert(s@[i as int] == c);
            return true;
        }
        i += 1;
    }
    false
}

/// A single file name: not empty, not `.`/`..`, no path separators, no NUL.
fn check_name(name: &[char]) -> (r: bool)
    ensures
        r == valid_name(name@),
{
    !(name.len() == 0 || is_dot(name) || is_dot_dot(name) || contains_char(name, '/')
        || contains_char(name, '\0'))
}

fn check_remote(scheme: &[char], authority: &[char]) -> (r: bool)
    ensures
        r == remote_ok(scheme@, authority@),
{
    check_scheme(scheme) && !is_file_scheme_exec(scheme) && authority.len() > 0 && !contains_char(
        authority,
        '/',
    ) && !contains_char(authority, '!')
}

fn invalid_path(what: &str, detail: &str) -> (e: Error)
    ensures
        e is InvalidPath,
{
    let mut m = String::new();
    m.append(what);
    m.append(detail);
    Error::InvalidPath(m)
}

/// The names of a native absolute path.
fn native_parts_exec(s: &[char]) -> (r: Vec<String>)
    ensures
        strings(r@) == native_parts(s@),
        forall|i: int| 0 <= i < strings(r@).len() ==> local_part_ok(#[trigger] strings(r@)[i]),
{
    let pieces = split_chars(s, '/');
    let mut parts: Vec<String> = Vec::new();
    let mut i: usize = 0;
    while i < pieces.len()
        invariant
            i <= pieces@.len(),
            char_vecs(pieces@) == split_on(s@, '/'),
            strings(parts@) == native_pieces(char_vecs(pieces@).take(i as int)),
        decreases pieces@.len() - i,
    {
        let piece = &pieces[i];
        let ghost taken = char_vecs(pieces@).take(i + 1);
        proof {
            assert(taken.drop_last() =~= char_vecs(pieces@).take(i as int));
            assert(taken.last() == piece@);
        }
        if !(piece.len() == 0 || is_dot(piece)) {
            parts.push(string_of(piece));
            assert(strings(parts@) =~= native_pieces(taken));
        }
        i += 1;
    }
    assert(char_vecs(pieces@).take(pieces@.len() as int) =~= char_vecs(pieces@));
    proof {
        lemma_split_on_no_sep(s@, '/');
        lemma_native_pieces_ok(split_on(s@, '/'));
    }
    parts
}

// ---------------------------------------------------------------------------------------------
// Equality
// ---------------------------------------------------------------------------------------------

fn inner_eq(a: &InnerPath, b: &InnerPath) -> (r: bool)
    ensures
        r == (a@ == b@),
{
    strings_eq(&a.parts, &b.parts)
}

fn inner_prefix(a: &InnerPath, b: &InnerPath) -> (r: bool)
    ensures
        r == (b@.len() <= a@.len() && a@.take(b@.len() as int) == b@),
{
    strings_prefix(&a.parts, &b.parts)
}

fn base_eq(a: &Base, b: &Base) -> (same: bool)
    ensures
        same == (a@ == b@),
{
    match (a, b) {
        (Base::Local(x), Base::Local(y)) => {
            let e = inner_eq(x, y);
            proof {
                if a@ == b@ {
                    assert(a@->Local_0 == b@->Local_0);
                }
            }
            e
        },
        (
            Base::Remote { scheme: s1, authority: a1, path: p1 },
            Base::Remote { scheme: s2, authority: a2, path: p2 },
        ) => {
            let e1 = *s1 == *s2;
            let e2 = *a1 == *a2;
            let e3 = inner_eq(p1, p2);
            proof {
                if a@ == b@ {
                    assert(a@->Remote_0 == b@->Remote_0);
                    assert(a@->Remote_1 == b@->Remote_1);
                    assert(a@->Remote_2 == b@->Remote_2);
                }
            }
            e1 && e2 && e3
        },
        (Base::Local(_), Base::Remote { .. }) => {
            assert(a@ != b@);
            false
        },
        (Base::Remote { .. }, Base::Local(_)) => {
            assert(a@ != b@);
            false
        },
    }
}

fn layer_eq(a: &Layer, b: &Layer) -> (r: bool)
    ensures
        r == (a@ == b@),
{
    a.kind == b.kind && inner_eq(&a.path, &b.path)
}

/// Whether the first `n` layers agree.
fn layers_agree(a: &Vec<Layer>, b: &Vec<Layer>, n: usize) -> (r: bool)
    requires
        n <= a@.len(),
        n <= b@.len(),
    ensures
        r == (layer_views(a@).take(n as int) == layer_views(b@).take(n as int)),
{
    let mut i: usize = 0;
    while i < n
        invariant
            n <= a@.len(),
            n <= b@.len(),
            i <= n,
            forall|j: int| 0 <= j < i ==> a@[j]@ == b@[j]@,
        decreases n - i,
    {
        if !layer_eq(&a[i], &b[i]) {
            assert(layer_views(a@).take(n as int)[i as int] != layer_views(b@).take(n as int)[i as int]);
            return false;
        }
        i += 1;
    }
    assert(layer_views(a@).take(n as int) =~= layer_views(b@).take(n as int));
    true
}

/// Whether two paths are the same place.
pub fn same_path(a: &VPath, b: &VPath) -> (r: bool)
    ensures
        r == (a@ == b@),
{
    let n = a.layers.len();
    if n != b.layers.len() {
        assert(a@.layers.len() != b@.layers.len());
        return false;
    }
    let r = base_eq(&a.base, &b.base) && layers_agree(&a.layers, &b.layers, n);
    assert(layer_views(a.layers@).take(n as int) =~= layer_views(a.layers@));
    assert(layer_views(b.layers@).take(n as int) =~= layer_views(b.layers@));
    r
}

} // verus!

verus! {

pub open spec fn local_path(parts: Seq<Seq<char>>) -> PathV {
    PathV { base: BaseV::Local(parts), layers: Seq::empty() }
}

/// An absolute native path, as its names.
pub open spec fn spec_local(s: Seq<char>) -> Option<PathV> {
    if s.len() > 0 && s[0] == '/' {
        Some(local_path(native_parts(s)))
    } else {
        None
    }
}

/// A native path, resolved against the absolute folder `cwd` when it is relative.
pub open spec fn spec_local_in(s: Seq<char>, cwd: Seq<char>) -> Option<PathV> {
    if s.len() == 0 {
        None
    } else if s[0] == '/' {
        spec_local(s)
    } else if cwd.len() > 0 && cwd[0] == '/' {
        Some(local_path(native_parts(cwd) + native_parts(s)))
    } else {
        None
    }
}

pub open spec fn spec_enter(p: PathV, kind: Seq<char>) -> PathV {
    PathV { base: p.base, layers: p.layers.push(LayerV { kind: lower(kind), parts: Seq::empty() }) }
}

pub proof fn lemma_lower_valid(s: Seq<char>)
    requires
        valid_scheme(s),
    ensures
        valid_kind(lower(s)),
        is_file_scheme(lower(s)) == is_file_scheme(s),
{
    let l = lower(s);
    assert forall|i: int| 1 <= i < l.len() implies is_scheme_char(#[trigger] l[i]) by {
        assert(is_scheme_char(s[i]));
    }
    assert(lower(l) =~= l);
}

impl VPath {
    /// An absolute path on the local disk.
    ///
    /// A relative path can only be resolved against the current directory,
    /// which [`VPath::local_in`] takes as an argument; here it is refused.
    pub fn local(path: &str) -> (r: Result<VPath>)
        ensures
            r is Ok <==> spec_local(path@) is Some,
            r matches Ok(p) ==> Some(p@) == spec_local(path@) && p@.wf(),
            r matches Err(e) ==> e is InvalidPath,
    {
        let chars = chars_of(path);
        if chars.len() == 0 {
            return Err(invalid_path("empty path", path));
        }
        if chars[0] != '/' {
            return Err(invalid_path("relative path needs a current folder: ", path));
        }
        let parts = native_parts_exec(&chars);
        let r = VPath { base: Base::Local(InnerPath { parts }), layers: Vec::new() };
        assert(layer_views(r.layers@) =~= Seq::<LayerV>::empty());
        Ok(r)
    }

    /// A path on the local disk; a relative `path` is resolved against the
    /// absolute folder `cwd`, the way the operating system resolves it against
    /// the current directory.
    pub fn local_in(path: &str, cwd: &str) -> (r: Result<VPath>)
        ensures
            r is Ok <==> spec_local_in(path@, cwd@) is Some,
            r matches Ok(p) ==> Some(p@) == spec_local_in(path@, cwd@) && p@.wf(),
            r matches Err(e) ==> e is InvalidPath,
    {
        let chars = chars_of(path);
        if chars.len() == 0 {
            return Err(invalid_path("empty path", path));
        }
        if chars[0] == '/' {
            return VPath::local(path);
        }
        let here = chars_of(cwd);
        if here.len() == 0 || here[0] != '/' {
            return Err(invalid_path("the current folder must be absolute: ", cwd));
        }
        let mut parts = native_parts_exec(&here);
        let mut more = native_parts_exec(&chars);
        let ghost first = parts@;
        parts.append(&mut more);
        let r = VPath { base: Base::Local(InnerPath { parts }), layers: Vec::new() };
        assert(layer_views(r.layers@) =~= Seq::<LayerV>::empty());
        assert(strings(parts@) =~= native_parts(cwd@) + native_parts(path@));
        proof {
            let ps = strings(parts@);
            assert forall|i: int| 0 <= i < ps.len() implies local_part_ok(#[trigger] ps[i]) by {
                if i < native_parts(cwd@).len() {
                    assert(ps[i] == native_parts(cwd@)[i]);
                } else {
                    assert(ps[i] == native_parts(path@)[i - native_parts(cwd@).len()]);
                }
            }
        }
        Ok(r)
    }

    /// A path on a remote file system, e.g. `VPath::remote("sftp", "me@host", "/home/me")`.
    pub fn remote(scheme: &str, authority: &str, path: &str) -> (r: Result<VPath>)
        ensures
            r is Ok <==> remote_ok(scheme@, authority@) && !path@.contains('\0'),
            r matches Ok(p) ==> p@ == (PathV {
                base: BaseV::Remote(lower(scheme@), authority@, normalize(split_on(path@, '/'))),
                layers: Seq::empty(),
            }) && p@.wf(),
            r matches Err(e) ==> e is InvalidPath,
    {
        let s = chars_of(scheme);
        let a = chars_of(authority);
        if !check_remote(&s, &a) {
            return Err(invalid_path("invalid scheme or server address: ", authority));
        }
        if contains_char(&chars_of(path), '\0') {
            return Err(invalid_path("a path can't hold NUL: ", path));
        }
        let inner = InnerPath::parse(path);
        let r = VPath {
            base: Base::Remote {
                scheme: lowercase_string(&s),
                authority: string_of(&a),
                path: inner,
            },
            layers: Vec::new(),
        };
        assert(layer_views(r.layers@) =~= Seq::<LayerV>::empty());
        proof {
            lemma_lower_valid(scheme@);
            lemma_split_on_no_sep(path@, '/');
            lemma_split_on_keeps_out(path@, '/', '\0');
            lemma_normalize_ok(split_on(path@, '/'));
        }
        Ok(r)
    }

    pub fn base(&self) -> (r: &Base)
        ensures
            r@ == self@.base,
    {
        &self.base
    }

    /// Opened containers, outermost first.
    pub fn layers(&self) -> (r: &[Layer])
        ensures
            layer_views(r@) == self@.layers,
    {
        self.layers.as_slice()
    }

    /// The native path text, if this is a plain local path (not inside an archive, not remote).
    pub fn as_local(&self) -> (r: Option<String>)
        ensures
            r is Some <==> (self@.base is Local && self@.layers.len() == 0),
            r matches Some(s) ==> s@ == inner_text(self@.base->Local_0),
    {
        match &self.base {
            Base::Local(p) => if self.layers.len() == 0 {
                Some(p.to_string())
            } else {
                None
            },
            _ => None,
        }
    }

    /// The child `name` inside this folder. `name` must be a single file name:
    /// no separators, not `.` or `..`.
    pub fn join(&self, name: &str) -> (r: Result<VPath>)
        ensures
            r is Ok <==> valid_name(name@),
            r matches Ok(p) ==> p@ == spec_join(self@, name@) && (self@.wf() ==> p@.wf()),
            r matches Err(e) ==> e is InvalidPath,
    {
        let n = chars_of(name);
        if !check_name(&n) {
            return Err(invalid_path("invalid file name: ", name));
        }
        let mut out = self.clone();
        let k = out.layers.len();
        if k > 0 {
            let mut last = out.layers.pop().unwrap();
            last.path.push(string_of(&n));
            out.layers.push(last);
            assert(layer_views(out.layers@) =~= layer_views(self.layers@).update(
                k - 1,
                LayerV { kind: self@.layers.last().kind, parts: self@.layers.last().parts.push(name@) },
            ));
        } else {
            match &mut out.base {
                Base::Local(p) => p.push(string_of(&n)),
                Base::Remote { path, .. } => path.push(string_of(&n)),
            }
        }
        proof {
            let q = spec_join(self@, name@);
            assert(out@ == q);
            if self@.wf() {
                assert forall|i: int| 0 <= i < q.layers.len() implies (#[trigger] q.layers[i]).wf() by {
                    if i == q.layers.len() - 1 {
                        let l = q.layers[i];
                        assert forall|j: int| 0 <= j < l.parts.len() implies valid_name(#[trigger] l.parts[j]) by {
                            if j < l.parts.len() - 1 {
                                assert(valid_name(self@.layers[i].parts[j]));
                            }
                        }
                    }
                }
                match q.base {
                    BaseV::Local(parts) => {
                        assert forall|i: int| 0 <= i < parts.len() implies local_part_ok(#[trigger] parts[i]) by {
                            if i < parts.len() - 1 {
                                assert(local_part_ok(self@.base->Local_0[i]));
                            }
                        }
                    },
                    BaseV::Remote(_, _, parts) => {
                        assert forall|i: int| 0 <= i < parts.len() implies remote_part_ok(#[trigger] parts[i]) by {
                            if i < parts.len() - 1 {
                                assert(remote_part_ok(self@.base->Remote_2[i]));
                            }
                        }
                    },
                }
            }
        }
        Ok(out)
    }

    /// Opens the file at this path as a container of the given `kind` (e.g. `"zip"`),
    /// returning the path of the container's root folder.
    pub fn enter(&self, kind: &str) -> (r: Result<VPath>)
        ensures
            r is Ok <==> valid_scheme(kind@),
            r matches Ok(p) ==> p@ == spec_enter(self@, kind@) && (self@.wf() ==> p@.wf()),
            r matches Err(e) ==> e is InvalidPath,
    {
        let k = chars_of(kind);
        if !check_scheme(&k) {
            return Err(invalid_path("invalid container kind: ", kind));
        }
        let mut out = self.clone();
        let layer = Layer { kind: lowercase_string(&k), path: InnerPath::default() };
        out.layers.push(layer);
        proof {
            assert(layer_views(out.layers@) =~= self@.layers.push(LayerV { kind: lower(kind@), parts: Seq::empty() }));
            lemma_lower_valid(kind@);
        }
        Ok(out)
    }

    /// The path of the innermost container file itself (the ZIP we are inside of), if any.
    pub fn outer(&self) -> (r: Option<VPath>)
        ensures
            r is Some <==> spec_outer(self@) is Some,
            r matches Some(p) ==> Some(p@) == spec_outer(self@) && (self@.wf() ==> p@.wf()),
    {
        if self.layers.len() == 0 {
            return None;
        }
        let mut out = self.clone();
        out.layers.pop();
        assert(layer_views(out.layers@) =~= self@.layers.drop_last());
        Some(out)
    }

    /// The folder containing this one, or `None` at the very top. Going up from
    /// the root of an archive lands in the folder that contains the archive file.
    pub fn parent(&self) -> (r: Option<VPath>)
        ensures
            r is Some <==> spec_parent(self@) is Some,
            r matches Some(p) ==> Some(p@) == spec_parent(self@) && (self@.wf() ==> p@.wf()),
        decreases self@.layers.len(),
    {
        let k = self.layers.len();
        if k > 0 {
            let mut out = self.clone();
            let mut last = out.layers.pop().unwrap();
            assert(layer_views(out.layers@) =~= self@.layers.drop_last());
            if last.path.parts.len() > 0 {
                last.path.pop();
                out.layers.push(last);
                proof {
                    let q = spec_parent(self@).unwrap();
                    assert(layer_views(out.layers@) =~= q.layers);
                    if self@.wf() {
                        assert forall|i: int| 0 <= i < q.layers.len() implies (#[trigger] q.layers[i]).wf() by {
                            assert(self@.layers[i].wf());
                            if i == q.layers.len() - 1 {
                                let l = q.layers[i];
                                assert forall|j: int| 0 <= j < l.parts.len() implies valid_name(#[trigger] l.parts[j]) by {
                                    assert(valid_name(self@.layers[i].parts[j]));
                                }
                            }
                        }
                    }
                }
                return Some(out);
            }
            return out.parent();
        }
        match &self.base {
            Base::Local(p) => match p.parent() {
                Some(pp) => {
                    let r = VPath { base: Base::Local(pp), layers: Vec::new() };
                    assert(layer_views(r.layers@) =~= Seq::<LayerV>::empty());
                    Some(r)
                },
                None => None,
            },
            Base::Remote { scheme, authority, path } => match path.parent() {
                Some(pp) => {
                    let r = VPath {
                        base: Base::Remote { scheme: scheme.clone(), authority: authority.clone(), path: pp },
                        layers: Vec::new(),
                    };
                    assert(layer_views(r.layers@) =~= Seq::<LayerV>::empty());
                    Some(r)
                },
                None => None,
            },
        }
    }

    /// The last name in the path. At the root of an archive, that's the archive's own name.
    /// `None` at the top of a file system (`/`, `sftp://host/`).
    pub fn file_name(&self) -> (r: Option<String>)
        ensures
            r is Some <==> spec_file_name(self@) is Some,
            r matches Some(s) ==> Some(s@) == spec_file_name(self@),
        decreases self@.layers.len(),
    {
        let k = self.layers.len();
        if k > 0 {
            let last = &self.layers[k - 1];
            let n = last.path.parts.len();
            if n > 0 {
                return Some(last.path.parts[n - 1].clone());
            }
            let outer = self.outer().unwrap();
            return outer.file_name();
        }
        match &self.base {
            Base::Local(p) => {
                let n = p.parts.len();
                if n > 0 && !str_is_dot_dot(&p.parts[n - 1]) {
                    Some(p.parts[n - 1].clone())
                } else {
                    None
                }
            },
            Base::Remote { path, .. } => {
                let n = path.parts.len();
                if n > 0 {
                    Some(path.parts[n - 1].clone())
                } else {
                    None
                }
            },
        }
    }

    pub fn is_root(&self) -> (r: bool)
        ensures
            r == (spec_parent(self@) is None),
    {
        self.parent().is_none()
    }

    /// True if `self` is `other` or somewhere inside it. Used to refuse copying a
    /// folder into itself, which would never end.
    pub fn starts_with(&self, other: &VPath) -> (r: bool)
        ensures
            r == spec_starts_with(self@, other@),
    {
        let n = other.layers.len();
        if n > self.layers.len() {
            return false;
        }
        if n == 0 {
            return match (&self.base, &other.base) {
                (Base::Local(a), Base::Local(b)) => inner_prefix(a, b),
                (
                    Base::Remote { scheme: s1, authority: a1, path: p1 },
                    Base::Remote { scheme: s2, authority: a2, path: p2 },
                ) => *s1 == *s2 && *a1 == *a2 && inner_prefix(p1, p2),
                _ => false,
            };
        }
        let mine = &self.layers[n - 1];
        let theirs = &other.layers[n - 1];
        let r = base_eq(&self.base, &other.base) && layers_agree(&self.layers, &other.layers, n - 1)
            && mine.kind == theirs.kind && inner_prefix(&mine.path, &theirs.path);
        r
    }

    /// Human-friendly form for titles and status lines: native local paths,
    /// no percent-encoding, and `!` between a container and the path inside it.
    pub fn to_string(&self) -> (r: String)
        ensures
            r@ == spec_display(self@),
    {
        let mut out = match &self.base {
            Base::Local(p) => p.to_string(),
            Base::Remote { scheme, authority, path } => {
                let mut o = scheme.clone();
                o.append("://");
                o.append(authority.as_str());
                let t = path.to_string();
                o.append(t.as_str());
                proof {
                    reveal_strlit("://");
                    assert(seq![':', '/', '/'] =~= colon_slash_slash());
                }
                o
            },
        };
        let ghost start = out@;
        let mut i: usize = 0;
        while i < self.layers.len()
            invariant
                i <= self@.layers.len(),
                out@ == start + layers_text(self@.layers.take(i as int)),
            decreases self@.layers.len() - i,
        {
            push_char(&mut out, '!');
            let t = self.layers[i].path.to_string();
            out.append(t.as_str());
            i += 1;
            proof {
                assert(self@.layers.take(i as int).drop_last() =~= self@.layers.take(i - 1));
                assert(start + layers_text(self@.layers.take(i as int)) =~= start + layers_text(self@.layers.take(i - 1)) + seq!['!'] + inner_text(self@.layers[i - 1].parts));
            }
        }
        assert(self@.layers.take(self@.layers.len() as int) =~= self@.layers);
        out
    }
}

} // verus!

verus! {

// ---------------------------------------------------------------------------------------------
// Percent-encoding
// ---------------------------------------------------------------------------------------------

/// Bytes that stand for themselves in the URI form.
pub open spec fn is_unreserved(b: u8) -> bool {
    ||| (0x30 <= b && b <= 0x39)
    ||| (0x41 <= b && b <= 0x5A)
    ||| (0x61 <= b && b <= 0x7A)
    ||| b == 0x2D || b == 0x2E || b == 0x5F || b == 0x7E || b == 0x3A || b == 0x40
    ||| b == 0x24 || b == 0x26 || b == 0x27 || b == 0x28 || b == 0x29 || b == 0x2A
    ||| b == 0x2B || b == 0x2C || b == 0x3B || b == 0x3D
}

/// An upper-case hexadecimal digit.
pub open spec fn hex_char(n: u8) -> char {
    if n < 10 {
        ((0x30 + n) as u8) as char
    } else {
        ((0x41 + n - 10) as u8) as char
    }
}

pub open spec fn pct_byte(b: u8, keep_slash: bool) -> Seq<char> {
    if is_unreserved(b) || (keep_slash && b == 0x2F) {
        seq![b as char]
    } else {
        seq!['%', hex_char(b / 16), hex_char(b % 16)]
    }
}

/// Every byte that isn't unreserved (or a kept `/`) becomes `%XX`.
pub open spec fn pct_encode(bytes: Seq<u8>, keep_slash: bool) -> Seq<char>
    decreases bytes.len(),
{
    if bytes.len() == 0 {
        Seq::empty()
    } else {
        pct_encode(bytes.drop_last(), keep_slash) + pct_byte(bytes.last(), keep_slash)
    }
}

pub open spec fn is_hex_byte(b: u8) -> bool {
    (0x30 <= b && b <= 0x39) || (0x41 <= b && b <= 0x46) || (0x61 <= b && b <= 0x66)
}

pub open spec fn hex_value(b: u8) -> u8 {
    if 0x30 <= b && b <= 0x39 {
        (b - 0x30) as u8
    } else if 0x41 <= b && b <= 0x46 {
        (b - 0x41 + 10) as u8
    } else {
        (b - 0x61 + 10) as u8
    }
}

pub open spec fn opt_prepend(a: Seq<u8>, o: Option<Seq<u8>>) -> Option<Seq<u8>> {
    match o {
        Some(r) => Some(a + r),
        None => None,
    }
}

/// `%XX` escapes (either case) become the byte they name; a `%` without two hex
/// digits after it is an error; everything else is kept.
pub open spec fn pct_decode(b: Seq<u8>) -> Option<Seq<u8>>
    decreases b.len(),
{
    if b.len() == 0 {
        Some(Seq::empty())
    } else if b[0] == 0x25 {
        if b.len() >= 3 && is_hex_byte(b[1]) && is_hex_byte(b[2]) {
            opt_prepend(seq![(hex_value(b[1]) * 16 + hex_value(b[2])) as u8], pct_decode(b.skip(3)))
        } else {
            None
        }
    } else {
        opt_prepend(seq![b[0]], pct_decode(b.drop_first()))
    }
}

fn is_unreserved_exec(b: u8) -> (r: bool)
    ensures
        r == is_unreserved(b),
{
    (0x30 <= b && b <= 0x39) || (0x41 <= b && b <= 0x5A) || (0x61 <= b && b <= 0x7A) || b == 0x2D
        || b == 0x2E || b == 0x5F || b == 0x7E || b == 0x3A || b == 0x40 || b == 0x24 || b == 0x26
        || b == 0x27 || b == 0x28 || b == 0x29 || b == 0x2A || b == 0x2B || b == 0x2C || b == 0x3B
        || b == 0x3D
}

fn hex_char_exec(n: u8) -> (c: char)
    requires
        n < 16,
    ensures
        c == hex_char(n),
{
    if n < 10 {
        let b: u8 = 0x30 + n;
        b as char
    } else {
        let b: u8 = 0x41 + n - 10;
        b as char
    }
}

/// The URI form of `s`'s UTF-8 bytes.
fn percent_encode(s: &str, keep_slash: bool) -> (r: String)
    ensures
        r@ == pct_encode(encode_utf8(s@), keep_slash),
{
    let bytes = s.as_bytes();
    let ghost all = bytes@;
    let mut out = String::new();
    let mut i: usize = 0;
    while i < bytes.len()
        invariant
            bytes@ == all,
            i <= all.len(),
            out@ == pct_encode(all.take(i as int), keep_slash),
        decreases all.len() - i,
    {
        let b = bytes[i];
        if is_unreserved_exec(b) || (keep_slash && b == 0x2F) {
            push_char(&mut out, b as char);
        } else {
            push_char(&mut out, '%');
            push_char(&mut out, hex_char_exec(b / 16));
            push_char(&mut out, hex_char_exec(b % 16));
        }
        i += 1;
        proof {
            assert(all.take(i as int).drop_last() =~= all.take(i - 1));
            assert(all.take(i as int).last() == b);
            assert(out@ =~= pct_encode(all.take(i as int), keep_slash));
        }
    }
    assert(all.take(all.len() as int) =~= all);
    out
}

fn is_hex_exec(b: u8) -> (r: bool)
    ensures
        r == is_hex_byte(b),
{
    (0x30 <= b && b <= 0x39) || (0x41 <= b && b <= 0x46) || (0x61 <= b && b <= 0x66)
}

fn hex_value_exec(b: u8) -> (r: u8)
    requires
        is_hex_byte(b),
    ensures
        r == hex_value(b),
        r < 16,
{
    if 0x30 <= b && b <= 0x39 {
        b - 0x30
    } else if 0x41 <= b && b <= 0x46 {
        b - 0x41 + 10
    } else {
        b - 0x61 + 10
    }
}

/// The bytes `s` stands for, or `None` for a broken `%`-escape.
fn percent_decode(s: &str) -> (r: Option<Vec<u8>>)
    ensures
        r is Some <==> pct_decode(encode_utf8(s@)) is Some,
        r matches Some(v) ==> Some(v@) == pct_decode(encode_utf8(s@)),
{
    let bytes = s.as_bytes();
    let ghost all = bytes@;
    let mut out: Vec<u8> = Vec::new();
    let mut i: usize = 0;
    proof {
        assert(all.skip(0) =~= all);
        assert(out@ + Seq::<u8>::empty() =~= out@);
    }
    while i < bytes.len()
        invariant
            bytes@ == all,
            all == encode_utf8(s@),
            i <= all.len(),
            pct_decode(all) == opt_prepend(out@, pct_decode(all.skip(i as int))),
        decreases all.len() - i,
    {
        let ghost rest = all.skip(i as int);
        if bytes[i] == 0x25 {
            if bytes.len() - i > 2 && is_hex_exec(bytes[i + 1]) && is_hex_exec(bytes[i + 2]) {
                let v = hex_value_exec(bytes[i + 1]) * 16 + hex_value_exec(bytes[i + 2]);
                let ghost old_out = out@;
                out.push(v);
                proof {
                    assert(rest.skip(3) =~= all.skip(i + 3));
                    assert(rest[1] == bytes@[i + 1]);
                    assert(rest[2] == bytes@[i + 2]);
                    match pct_decode(all.skip(i + 3)) {
                        Some(t) => {
                            assert(old_out + (seq![v] + t) =~= out@ + t);
                        },
                        None => {},
                    }
                }
                i += 3;
            } else {
                assert(pct_decode(rest) is None);
                return None;
            }
        } else {
            let ghost old_out = out@;
            out.push(bytes[i]);
            proof {
                assert(rest.drop_first() =~= all.skip(i + 1));
                match pct_decode(all.skip(i + 1)) {
                    Some(t) => {
                        assert(old_out + (seq![bytes@[i as int]] + t) =~= out@ + t);
                    },
                    None => {},
                }
            }
            i += 1;
        }
    }
    proof {
        assert(all.skip(i as int) =~= Seq::<u8>::empty());
        assert(out@ + Seq::<u8>::empty() =~= out@);
    }
    Some(out)
}

} // verus!

verus! {

// ---------------------------------------------------------------------------------------------
// The URI form
// ---------------------------------------------------------------------------------------------

/// One name as it appears in the URI form, decoded and checked.
pub open spec fn decode_part(p: Seq<char>) -> Option<Seq<char>> {
    match pct_decode(encode_utf8(p)) {
        Some(b) => if valid_utf8(b) && valid_name(decode_utf8(b)) {
            Some(decode_utf8(b))
        } else {
            None
        },
        None => None,
    }
}

pub open spec fn decode_pieces(pieces: Seq<Seq<char>>) -> Option<Seq<Seq<char>>>
    decreases pieces.len(),
{
    if pieces.len() == 0 {
        Some(Seq::empty())
    } else {
        match decode_pieces(pieces.drop_last()) {
            None => None,
            Some(prev) => if pieces.last().len() == 0 {
                Some(prev)
            } else {
                match decode_part(pieces.last()) {
                    Some(n) => Some(prev.push(n)),
                    None => None,
                }
            },
        }
    }
}

/// The names of an encoded inner path such as `/a/b%20c`.
pub open spec fn spec_from_encoded(s: Seq<char>) -> Option<Seq<Seq<char>>> {
    if s.len() > 0 && s[0] == '/' {
        decode_pieces(split_on(s, '/'))
    } else {
        None
    }
}

/// The names of an encoded absolute local path such as `/home/me/My%20Documents`.
pub open spec fn spec_decode_local(s: Seq<char>) -> Option<Seq<Seq<char>>> {
    if s.len() > 0 && s[0] == '/' {
        match pct_decode(encode_utf8(s)) {
            Some(b) => if valid_utf8(b) {
                Some(native_parts(decode_utf8(b)))
            } else {
                None
            },
            None => None,
        }
    } else {
        None
    }
}

pub open spec fn enc_parts(parts: Seq<Seq<char>>, keep_slash: bool) -> Seq<char>
    decreases parts.len(),
{
    if parts.len() == 0 {
        Seq::empty()
    } else {
        enc_parts(parts.drop_last(), keep_slash) + seq!['/'] + pct_encode(
            encode_utf8(parts.last()),
            keep_slash,
        )
    }
}

pub open spec fn enc_inner(parts: Seq<Seq<char>>) -> Seq<char> {
    if parts.len() == 0 {
        seq!['/']
    } else {
        enc_parts(parts, false)
    }
}

pub open spec fn enc_local(parts: Seq<Seq<char>>) -> Seq<char> {
    if parts.len() == 0 {
        seq!['/']
    } else {
        enc_parts(parts, true)
    }
}

/// The layer kinds, innermost first, each followed by `:`.
pub open spec fn kinds_prefix(layers: Seq<LayerV>) -> Seq<char>
    decreases layers.len(),
{
    if layers.len() == 0 {
        Seq::empty()
    } else {
        layers.last().kind + seq![':'] + kinds_prefix(layers.drop_last())
    }
}

/// `!` and the encoded path inside each layer, outermost first.
pub open spec fn layers_suffix(layers: Seq<LayerV>) -> Seq<char>
    decreases layers.len(),
{
    if layers.len() == 0 {
        Seq::empty()
    } else {
        layers_suffix(layers.drop_last()) + seq!['!'] + enc_inner(layers.last().parts)
    }
}

pub open spec fn file_slash_slash() -> Seq<char> {
    seq!['f', 'i', 'l', 'e', ':', '/', '/']
}

pub open spec fn base_uri(b: BaseV) -> Seq<char> {
    match b {
        BaseV::Local(parts) => file_slash_slash() + enc_local(parts),
        BaseV::Remote(s, a, parts) => s + colon_slash_slash() + a + enc_inner(parts),
    }
}

/// The unambiguous text form.
pub open spec fn spec_to_uri(p: PathV) -> Seq<char> {
    kinds_prefix(p.layers) + base_uri(p.base) + layers_suffix(p.layers)
}

/// The index of the first `c` in `s`.
pub open spec fn find(s: Seq<char>, c: char) -> Option<int>
    decreases s.len(),
{
    if s.len() == 0 {
        None
    } else if s[0] == c {
        Some(0)
    } else {
        match find(s.drop_first(), c) {
            Some(i) => Some(i + 1),
            None => None,
        }
    }
}

pub open spec fn shift(o: Option<int>, d: int) -> Option<int> {
    match o {
        Some(i) => Some(i + d),
        None => None,
    }
}

/// The pieces of `kind2:kind1:scheme://body`: the kinds as written (innermost
/// first), the scheme, and the body. `None` if the text isn't a URI at all.
/// Every token before `://` must be a scheme of at least two characters, which
/// keeps Windows drive letters and names with a colon in them out.
pub open spec fn spec_split_uri(rest: Seq<char>, kinds: Seq<Seq<char>>) -> Option<
    (Seq<Seq<char>>, Seq<char>, Seq<char>),
>
    decreases rest.len(),
{
    match find(rest, ':') {
        None => None,
        Some(i) => {
            let token = rest.take(i);
            if token.len() < 2 || !valid_scheme(token) {
                None
            } else {
                let after = rest.skip(i + 1);
                if after.len() >= 2 && after[0] == '/' && after[1] == '/' {
                    Some((kinds, token, after.skip(2)))
                } else {
                    proof {
                        lemma_find_bounds(rest, ':');
                    }
                    spec_split_uri(after, kinds.push(token))
                }
            }
        }
    }
}

pub proof fn lemma_find_bounds(s: Seq<char>, c: char)
    ensures
        find(s, c) matches Some(i) ==> 0 <= i < s.len() && s[i] == c && forall|k: int| 0 <= k < i ==> s[k] != c,
        find(s, c) is None ==> forall|k: int| 0 <= k < s.len() ==> s[k] != c,
    decreases s.len(),
{
    if s.len() > 0 {
        lemma_find_bounds(s.drop_first(), c);
        if s[0] != c {
            if let Some(i) = find(s.drop_first(), c) {
                assert forall|k: int| 0 <= k < i + 1 implies s[k] != c by {
                    if k > 0 {
                        assert(s[k] == s.drop_first()[k - 1]);
                    }
                }
            } else {
                assert forall|k: int| 0 <= k < s.len() implies s[k] != c by {
                    if k > 0 {
                        assert(s[k] == s.drop_first()[k - 1]);
                    }
                }
            }
        }
    }
}

/// The base of a URI, from its scheme and the text before the first `!`.
pub open spec fn spec_base(scheme: Seq<char>, part: Seq<char>) -> Option<BaseV> {
    if is_file_scheme(scheme) {
        match spec_decode_local(part) {
            Some(parts) => Some(BaseV::Local(parts)),
            None => None,
        }
    } else {
        let authority = match find(part, '/') {
            Some(i) => part.take(i),
            None => part,
        };
        let path = match find(part, '/') {
            Some(i) => part.skip(i),
            None => seq!['/'],
        };
        if remote_ok(scheme, authority) {
            match spec_from_encoded(path) {
                Some(parts) => Some(BaseV::Remote(lower(scheme), authority, parts)),
                None => None,
            }
        } else {
            None
        }
    }
}

/// The first `n` layers: layer `i` pairs the `i`-th kind counted from the
/// outside (the kinds are written innermost first) with the `i`-th `!` section.
pub open spec fn spec_layers(kinds: Seq<Seq<char>>, sections: Seq<Seq<char>>, n: nat) -> Option<
    Seq<LayerV>,
>
    decreases n,
{
    if n == 0 {
        Some(Seq::empty())
    } else {
        match spec_layers(kinds, sections, (n - 1) as nat) {
            None => None,
            Some(prev) => {
                let kind = kinds[kinds.len() - n];
                if valid_scheme(kind) {
                    match spec_from_encoded(sections[n - 1]) {
                        Some(parts) => Some(prev.push(LayerV { kind: lower(kind), parts })),
                        None => None,
                    }
                } else {
                    None
                }
            },
        }
    }
}

pub open spec fn spec_into(kinds: Seq<Seq<char>>, scheme: Seq<char>, body: Seq<char>) -> Option<PathV> {
    let segs = split_on(body, '!');
    let sections = segs.skip(1);
    if sections.len() != kinds.len() {
        None
    } else {
        match (spec_base(scheme, segs[0]), spec_layers(kinds, sections, kinds.len())) {
            (Some(base), Some(layers)) => Some(PathV { base, layers }),
            _ => None,
        }
    }
}

/// What [`VPath::parse`] makes of `s`: a URI, or an absolute native path.
pub open spec fn spec_parse(s: Seq<char>) -> Option<PathV> {
    match spec_split_uri(s, Seq::empty()) {
        Some((kinds, scheme, body)) => spec_into(kinds, scheme, body),
        None => spec_local(s),
    }
}

/// What [`VPath::parse_in`] makes of `s` with `cwd` as the current folder.
pub open spec fn spec_parse_in(s: Seq<char>, cwd: Seq<char>) -> Option<PathV> {
    match spec_split_uri(s, Seq::empty()) {
        Some((kinds, scheme, body)) => spec_into(kinds, scheme, body),
        None => spec_local_in(s, cwd),
    }
}

} // verus!

verus! {

fn sub_chars(s: &[char], a: usize, b: usize) -> (r: Vec<char>)
    requires
        a <= b <= s@.len(),
    ensures
        r@ == s@.subrange(a as int, b as int),
{
    let mut r: Vec<char> = Vec::new();
    let mut i = a;
    while i < b
        invariant
            a <= i <= b <= s@.len(),
            r@ == s@.subrange(a as int, i as int),
        decreases b - i,
    {
        r.push(s[i]);
        i += 1;
        assert(r@ =~= s@.subrange(a as int, i as int));
    }
    r
}

/// The index of the first `c` in `s` at or after `from`.
pub(crate) fn find_from(s: &[char], from: usize, c: char) -> (r: Option<usize>)
    requires
        from <= s@.len(),
    ensures
        match find(s@.skip(from as int), c) {
            Some(i) => r == Some((i + from) as usize),
            None => r is None,
        },
{
    let mut j = from;
    proof {
        assert(s@.skip(from as int) =~= s@.skip(j as int));
    }
    while j < s.len()
        invariant
            from <= j <= s@.len(),
            find(s@.skip(from as int), c) == shift(find(s@.skip(j as int), c), j - from),
        decreases s@.len() - j,
    {
        if s[j] == c {
            return Some(j);
        }
        assert(s@.skip(j as int).drop_first() =~= s@.skip(j + 1));
        j += 1;
    }
    None
}

pub proof fn lemma_decode_pieces_valid(pieces: Seq<Seq<char>>)
    ensures
        decode_pieces(pieces) matches Some(parts) ==> forall|i: int| 0 <= i < parts.len() ==> valid_name(#[trigger] parts[i]),
    decreases pieces.len(),
{
    if pieces.len() > 0 {
        lemma_decode_pieces_valid(pieces.drop_last());
    }
}

pub proof fn lemma_decode_pieces_none(pieces: Seq<Seq<char>>, i: int)
    requires
        0 <= i <= pieces.len(),
        decode_pieces(pieces.take(i)) is None,
    ensures
        decode_pieces(pieces) is None,
    decreases pieces.len(),
{
    if i < pieces.len() {
        assert(pieces.drop_last().take(i) =~= pieces.take(i));
        lemma_decode_pieces_none(pieces.drop_last(), i);
    } else {
        assert(pieces.take(i) =~= pieces);
    }
}

pub proof fn lemma_spec_layers_none(kinds: Seq<Seq<char>>, sections: Seq<Seq<char>>, m: nat, n: nat)
    requires
        m <= n,
        spec_layers(kinds, sections, m) is None,
    ensures
        spec_layers(kinds, sections, n) is None,
    decreases n,
{
    if m < n {
        lemma_spec_layers_none(kinds, sections, m, (n - 1) as nat);
    }
}

impl InnerPath {
    /// `/a/b%20c`, or `/` for the root.
    fn to_encoded(&self) -> (r: String)
        ensures
            r@ == enc_inner(self@),
    {
        if self.parts.len() == 0 {
            let mut out = String::new();
            push_char(&mut out, '/');
            assert(out@ =~= seq!['/']);
            return out;
        }
        self.encoded_parts(false)
    }

    /// `/a/b%20c`, keeping any `/` a name might hold; `/` for the root.
    fn to_encoded_local(&self) -> (r: String)
        ensures
            r@ == enc_local(self@),
    {
        if self.parts.len() == 0 {
            let mut out = String::new();
            push_char(&mut out, '/');
            assert(out@ =~= seq!['/']);
            return out;
        }
        self.encoded_parts(true)
    }

    fn encoded_parts(&self, keep_slash: bool) -> (r: String)
        ensures
            r@ == enc_parts(self@, keep_slash),
    {
        let mut out = String::new();
        let mut i: usize = 0;
        while i < self.parts.len()
            invariant
                i <= self@.len(),
                out@ == enc_parts(self@.take(i as int), keep_slash),
            decreases self@.len() - i,
        {
            push_char(&mut out, '/');
            let e = percent_encode(self.parts[i].as_str(), keep_slash);
            out.append(e.as_str());
            i += 1;
            assert(self@.take(i as int).drop_last() =~= self@.take(i - 1));
        }
        assert(self@.take(self@.len() as int) =~= self@);
        out
    }

    /// Reads an encoded inner path; it must start with `/`, and every name in it
    /// must decode to valid UTF-8 and be a real file name.
    fn from_encoded(s: &[char]) -> (r: Result<InnerPath>)
        ensures
            r is Ok <==> spec_from_encoded(s@) is Some,
            r matches Ok(p) ==> Some(p@) == spec_from_encoded(s@),
            r matches Err(e) ==> e is InvalidPath,
    {
        if s.len() == 0 || s[0] != '/' {
            return Err(invalid_path("path inside a container must start with '/'", ""));
        }
        let pieces = split_chars(s, '/');
        let mut parts: Vec<String> = Vec::new();
        let mut i: usize = 0;
        while i < pieces.len()
            invariant
                i <= pieces@.len(),
                char_vecs(pieces@) == split_on(s@, '/'),
                decode_pieces(char_vecs(pieces@).take(i as int)) == Some(strings(parts@)),
            decreases pieces@.len() - i,
        {
            let piece = &pieces[i];
            let ghost taken = char_vecs(pieces@).take(i + 1);
            proof {
                assert(taken.drop_last() =~= char_vecs(pieces@).take(i as int));
                assert(taken.last() == piece@);
            }
            if piece.len() > 0 {
                let raw = string_of(piece);
                let bytes = match percent_decode(raw.as_str()) {
                    Some(b) => b,
                    None => {
                        proof {
                            lemma_decode_pieces_none(char_vecs(pieces@), i + 1);
                        }
                        return Err(invalid_path("bad %-escape in ", raw.as_str()));
                    },
                };
                let name = match string_from_utf8(bytes) {
                    Some(n) => n,
                    None => {
                        proof {
                            lemma_decode_pieces_none(char_vecs(pieces@), i + 1);
                        }
                        return Err(invalid_path("not valid UTF-8: ", raw.as_str()));
                    },
                };
                let nc = chars_of(name.as_str());
                if !check_name(&nc) {
                    proof {
                        lemma_decode_pieces_none(char_vecs(pieces@), i + 1);
                    }
                    return Err(invalid_path("invalid file name: ", name.as_str()));
                }
                parts.push(name);
                assert(strings(parts@) =~= strings(parts@).drop_last().push(name@));
            }
            i += 1;
        }
        assert(char_vecs(pieces@).take(pieces@.len() as int) =~= char_vecs(pieces@));
        Ok(InnerPath { parts })
    }
}

/// The names of an encoded absolute local path.
fn decode_local_path(s: &[char]) -> (r: Result<InnerPath>)
    ensures
        r is Ok <==> spec_decode_local(s@) is Some,
        r matches Ok(p) ==> Some(p@) == spec_decode_local(s@),
        r matches Err(e) ==> e is InvalidPath,
{
    if s.len() == 0 || s[0] != '/' {
        return Err(invalid_path("file:// path must be absolute", ""));
    }
    let raw = string_of(s);
    let bytes = match percent_decode(raw.as_str()) {
        Some(b) => b,
        None => return Err(invalid_path("bad %-escape in ", raw.as_str())),
    };
    let text = match string_from_utf8(bytes) {
        Some(t) => t,
        None => return Err(invalid_path("not valid UTF-8: ", raw.as_str())),
    };
    let chars = chars_of(text.as_str());
    let parts = native_parts_exec(&chars);
    Ok(InnerPath { parts })
}

/// The pieces of a URI before they are validated: the kinds (innermost first),
/// the scheme, and everything after `scheme://`.
fn split_uri(s: &[char]) -> (r: Option<(Vec<Vec<char>>, Vec<char>, Vec<char>)>)
    ensures
        match spec_split_uri(s@, Seq::empty()) {
            Some((k, sc, b)) => r matches Some((k2, sc2, b2)) && char_vecs(k2@) == k && sc2@ == sc
                && b2@ == b,
            None => r is None,
        },
{
    let mut kinds: Vec<Vec<char>> = Vec::new();
    let mut start: usize = 0;
    proof {
        assert(s@.skip(0) =~= s@);
        assert(char_vecs(kinds@) =~= Seq::<Seq<char>>::empty());
    }
    while start <= s.len()
        invariant
            start <= s@.len(),
            spec_split_uri(s@, Seq::empty()) == spec_split_uri(s@.skip(start as int), char_vecs(kinds@)),
        decreases s@.len() - start,
    {
        let ghost rest = s@.skip(start as int);
        let colon = match find_from(s, start, ':') {
            Some(c) => c,
            None => return None,
        };
        proof {
            lemma_find_bounds(rest, ':');
        }
        let token = sub_chars(s, start, colon);
        assert(token@ =~= rest.take(colon - start));
        if token.len() < 2 || !check_scheme(&token) {
            return None;
        }
        let after = colon + 1;
        assert(rest.skip(colon - start + 1) =~= s@.skip(after as int));
        if s.len() - after >= 2 && s[after] == '/' && s[after + 1] == '/' {
            let body = sub_chars(s, after + 2, s.len());
            assert(body@ =~= s@.skip(after as int).skip(2));
            return Some((kinds, token, body));
        }
        let ghost old_kinds = char_vecs(kinds@);
        kinds.push(token);
        assert(char_vecs(kinds@) =~= old_kinds.push(token@));
        start = after;
    }
    None
}

fn reverse_kind(kinds: &Vec<Vec<char>>, n: usize) -> (r: &Vec<char>)
    requires
        1 <= n <= kinds@.len(),
    ensures
        r@ == char_vecs(kinds@)[kinds@.len() - n],
{
    &kinds[kinds.len() - n]
}

fn into_vpath(kinds: &Vec<Vec<char>>, scheme: &Vec<char>, body: &Vec<char>) -> (r: Result<VPath>)
    ensures
        r is Ok <==> spec_into(char_vecs(kinds@), scheme@, body@) is Some,
        r matches Ok(p) ==> Some(p@) == spec_into(char_vecs(kinds@), scheme@, body@) && p@.wf(),
        r matches Err(e) ==> e is InvalidPath,
{
    let segs = split_chars(body, '!');
    proof {
        crate::text::lemma_split_on_nonempty(body@, '!');
    }
    let ghost ks = char_vecs(kinds@);
    let ghost sections = char_vecs(segs@).skip(1);
    if segs.len() - 1 != kinds.len() {
        return Err(invalid_path("container kinds and '!' sections don't pair up", ""));
    }
    let base_part = &segs[0];
    let base = if is_file_scheme_exec(scheme) {
        let p = decode_local_path(base_part)?;
        proof {
            lemma_split_on_no_sep(decode_utf8(pct_decode(encode_utf8(base_part@)).unwrap()), '/');
            lemma_native_pieces_ok(split_on(decode_utf8(pct_decode(encode_utf8(base_part@)).unwrap()), '/'));
        }
        Base::Local(p)
    } else {
        let slash = find_from(base_part, 0, '/');
        proof {
            assert(base_part@.skip(0) =~= base_part@);
            lemma_find_bounds(base_part@, '/');
        }
        let (authority, path) = match slash {
            Some(i) => (sub_chars(base_part, 0, i), sub_chars(base_part, i, base_part.len())),
            None => (sub_chars(base_part, 0, base_part.len()), vec!['/']),
        };
        proof {
            assert(base_part@.skip(0) =~= base_part@);
            lemma_find_bounds(base_part@, '/');
            match find(base_part@, '/') {
                Some(i) => {
                    assert(authority@ =~= base_part@.take(i));
                    assert(path@ =~= base_part@.skip(i));
                },
                None => {
                    assert(authority@ =~= base_part@);
                    assert(path@ =~= seq!['/']);
                },
            }
        }
        if !check_remote(scheme, &authority) {
            return Err(invalid_path("invalid scheme or server address", ""));
        }
        let inner = InnerPath::from_encoded(&path)?;
        proof {
            lemma_lower_valid(scheme@);
            lemma_decode_pieces_valid(split_on(path@, '/'));
        }
        Base::Remote { scheme: lowercase_string(scheme), authority: string_of(&authority), path: inner }
    };
    assert(Some(base@) == spec_base(scheme@, char_vecs(segs@)[0]));
    let n = kinds.len();
    let mut layers: Vec<Layer> = Vec::new();
    let mut i: usize = 0;
    proof {
        assert(layer_views(layers@) =~= Seq::<LayerV>::empty());
    }
    while i < n
        invariant
            n == kinds@.len(),
            segs@.len() == n + 1,
            ks == char_vecs(kinds@),
            sections == char_vecs(segs@).skip(1),
            char_vecs(segs@) == split_on(body@, '!'),
            i <= n,
            spec_layers(ks, sections, i as nat) == Some(layer_views(layers@)),
            forall|j: int| 0 <= j < layers@.len() ==> (#[trigger] layer_views(layers@)[j]).wf(),
        decreases n - i,
    {
        let kind = reverse_kind(kinds, i + 1);
        if !check_scheme(kind) {
            proof {
                assert(kind@ == ks[ks.len() - (i + 1)]);
                assert(spec_layers(ks, sections, (i + 1) as nat) is None);
                lemma_spec_layers_none(ks, sections, (i + 1) as nat, n as nat);
                assert(ks.len() == n);
                assert(split_on(body@, '!').skip(1) == sections);
                assert(spec_layers(ks, split_on(body@, '!').skip(1), ks.len()) is None);
                assert(spec_into(ks, scheme@, body@) is None);
            }
            return Err(invalid_path("invalid container kind", ""));
        }
        assert(sections[i as int] == segs@[i + 1]@);
        let inner = match InnerPath::from_encoded(&segs[i + 1]) {
            Ok(inner) => inner,
            Err(e) => {
                proof {
                    assert(kind@ == ks[ks.len() - (i + 1)]);
                    assert(spec_layers(ks, sections, (i + 1) as nat) is None);
                    lemma_spec_layers_none(ks, sections, (i + 1) as nat, n as nat);
                    assert(ks.len() == n);
                    assert(split_on(body@, '!').skip(1) == sections);
                }
                return Err(e);
            },
        };
        let layer = Layer { kind: lowercase_string(kind), path: inner };
        proof {
            lemma_lower_valid(kind@);
            lemma_decode_pieces_valid(split_on(segs@[i + 1]@, '/'));
        }
        let ghost before = layer_views(layers@);
        layers.push(layer);
        assert(layer_views(layers@) =~= before.push(layer@));
        i += 1;
    }
    let r = VPath { base, layers };
    proof {
        assert(r@.wf());
    }
    Ok(r)
}

impl VPath {
    /// Parses a URI (`file:///…`, `sftp://…`, `zip:file:///…!/…`) or an absolute
    /// native path (`/home/me`). A relative native path needs a current folder:
    /// see [`VPath::parse_in`].
    pub fn parse(input: &str) -> (r: Result<VPath>)
        ensures
            r is Ok <==> spec_parse(input@) is Some,
            r matches Ok(p) ==> Some(p@) == spec_parse(input@) && p@.wf(),
            r matches Err(e) ==> e is InvalidPath,
    {
        let chars = chars_of(input);
        match split_uri(&chars) {
            Some((kinds, scheme, body)) => into_vpath(&kinds, &scheme, &body),
            None => VPath::local(input),
        }
    }

    /// Like [`VPath::parse`], with a relative native path resolved against `cwd`.
    pub fn parse_in(input: &str, cwd: &str) -> (r: Result<VPath>)
        ensures
            r is Ok <==> spec_parse_in(input@, cwd@) is Some,
            r matches Ok(p) ==> Some(p@) == spec_parse_in(input@, cwd@) && p@.wf(),
            r matches Err(e) ==> e is InvalidPath,
    {
        let chars = chars_of(input);
        match split_uri(&chars) {
            Some((kinds, scheme, body)) => into_vpath(&kinds, &scheme, &body),
            None => VPath::local_in(input, cwd),
        }
    }

    /// The unambiguous text form, suitable for config files and bookmarks.
    pub fn to_uri(&self) -> (r: String)
        ensures
            r@ == spec_to_uri(self@),
    {
        let mut out = String::new();
        let k = self.layers.len();
        let mut j = k;
        proof {
            assert(self@.layers.take(k as int) =~= self@.layers);
            assert(out@ + kinds_prefix(self@.layers.take(j as int)) =~= kinds_prefix(self@.layers));
        }
        while j > 0
            invariant
                j <= k,
                k == self@.layers.len(),
                kinds_prefix(self@.layers) == out@ + kinds_prefix(self@.layers.take(j as int)),
            decreases j,
        {
            let ghost before = out@;
            out.append(self.layers[j - 1].kind.as_str());
            push_char(&mut out, ':');
            proof {
                let t = self@.layers.take(j as int);
                assert(t.drop_last() =~= self@.layers.take(j - 1));
                assert(t.last() == self@.layers[j - 1]);
                assert(out@ + kinds_prefix(self@.layers.take(j - 1)) =~= before + kinds_prefix(t));
            }
            j -= 1;
        }
        assert(self@.layers.take(0) =~= Seq::<LayerV>::empty());
        let ghost prefix = out@;
        match &self.base {
            Base::Local(p) => {
                out.append("file://");
                let e = p.to_encoded_local();
                out.append(e.as_str());
                proof {
                    reveal_strlit("file://");
                    assert("file://"@ =~= file_slash_slash());
                }
            },
            Base::Remote { scheme, authority, path } => {
                out.append(scheme.as_str());
                out.append("://");
                out.append(authority.as_str());
                let e = path.to_encoded();
                out.append(e.as_str());
                proof {
                    reveal_strlit("://");
                    assert("://"@ =~= colon_slash_slash());
                }
            },
        }
        assert(out@ =~= prefix + base_uri(self@.base));
        let ghost mid = out@;
        let mut i: usize = 0;
        while i < k
            invariant
                i <= k,
                k == self@.layers.len(),
                out@ == mid + layers_suffix(self@.layers.take(i as int)),
            decreases k - i,
        {
            push_char(&mut out, '!');
            let e = self.layers[i].path.to_encoded();
            out.append(e.as_str());
            i += 1;
            proof {
                let t = self@.layers.take(i as int);
                assert(t.drop_last() =~= self@.layers.take(i - 1));
                assert(out@ =~= mid + layers_suffix(t));
            }
        }
        assert(self@.layers.take(k as int) =~= self@.layers);
        out
    }
}

} // verus!

verus! {

/// Unicode's `White_Space` property, which is what `char::is_whitespace` tests.
pub open spec fn is_unicode_whitespace(c: char) -> bool {
    ||| ('\u{9}' <= c && c <= '\u{d}')
    ||| c == ' ' || c == '\u{85}' || c == '\u{a0}' || c == '\u{1680}'
    ||| ('\u{2000}' <= c && c <= '\u{200a}')
    ||| c == '\u{2028}' || c == '\u{2029}' || c == '\u{202f}' || c == '\u{205f}' || c == '\u{3000}'
}

pub open spec fn trim_start(s: Seq<char>) -> Seq<char>
    decreases s.len(),
{
    if s.len() > 0 && is_unicode_whitespace(s[0]) {
        trim_start(s.drop_first())
    } else {
        s
    }
}

pub open spec fn trim_end(s: Seq<char>) -> Seq<char>
    decreases s.len(),
{
    if s.len() > 0 && is_unicode_whitespace(s.last()) {
        trim_end(s.drop_last())
    } else {
        s
    }
}

/// `s` without leading and trailing whitespace, as `str::trim` gives it.
pub open spec fn trim(s: Seq<char>) -> Seq<char> {
    trim_end(trim_start(s))
}

/// Walks the `/`-separated pieces of a relative path from `p`, the way a shell does.
pub open spec fn resolve_steps(p: PathV, pieces: Seq<Seq<char>>) -> Option<PathV>
    decreases pieces.len(),
{
    if pieces.len() == 0 {
        Some(p)
    } else {
        match resolve_steps(p, pieces.drop_last()) {
            None => None,
            Some(q) => {
                let x = pieces.last();
                if x.len() == 0 || x == dot() {
                    Some(q)
                } else if x == dot_dot() {
                    match spec_parent(q) {
                        Some(r) => Some(r),
                        None => Some(q),
                    }
                } else if valid_name(x) {
                    Some(spec_join(q, x))
                } else {
                    None
                }
            },
        }
    }
}

/// What [`VPath::resolve`] makes of `input` typed in the folder `p`.
pub open spec fn spec_resolve(p: PathV, input: Seq<char>) -> Option<PathV> {
    let t = trim(input);
    if t.len() == 0 {
        Some(p)
    } else if spec_split_uri(t, Seq::empty()) is Some || t[0] == '/' {
        spec_parse(t)
    } else {
        resolve_steps(p, split_on(t, '/'))
    }
}

fn is_whitespace_exec(c: char) -> (r: bool)
    ensures
        r == is_unicode_whitespace(c),
{
    ('\u{9}' <= c && c <= '\u{d}') || c == ' ' || c == '\u{85}' || c == '\u{a0}' || c == '\u{1680}'
        || ('\u{2000}' <= c && c <= '\u{200a}') || c == '\u{2028}' || c == '\u{2029}' || c
        == '\u{202f}' || c == '\u{205f}' || c == '\u{3000}'
}

pub fn trim_chars(s: &[char]) -> (r: Vec<char>)
    ensures
        r@ == trim(s@),
{
    let mut a: usize = 0;
    proof {
        assert(s@.skip(0) =~= s@);
    }
    while a < s.len() && is_whitespace_exec(s[a])
        invariant
            a <= s@.len(),
            trim_start(s@) == trim_start(s@.skip(a as int)),
        decreases s@.len() - a,
    {
        assert(s@.skip(a as int).drop_first() =~= s@.skip(a + 1));
        a += 1;
    }
    let mut b: usize = s.len();
    proof {
        assert(trim_start(s@) == s@.skip(a as int));
        assert(s@.subrange(a as int, b as int) =~= s@.skip(a as int));
    }
    while b > a && is_whitespace_exec(s[b - 1])
        invariant
            a <= b <= s@.len(),
            trim(s@) == trim_end(s@.subrange(a as int, b as int)),
        decreases b,
    {
        assert(s@.subrange(a as int, b as int).drop_last() =~= s@.subrange(a as int, b - 1));
        b -= 1;
    }
    sub_chars(s, a, b)
}

pub proof fn lemma_resolve_steps_none(p: PathV, pieces: Seq<Seq<char>>, i: int)
    requires
        0 <= i <= pieces.len(),
        resolve_steps(p, pieces.take(i)) is None,
    ensures
        resolve_steps(p, pieces) is None,
    decreases pieces.len(),
{
    if i < pieces.len() {
        assert(pieces.drop_last().take(i) =~= pieces.take(i));
        lemma_resolve_steps_none(p, pieces.drop_last(), i);
    } else {
        assert(pieces.take(i) =~= pieces);
    }
}

impl VPath {
    /// Interprets what a user typed, relative to this folder, the way a shell would:
    /// URIs and absolute paths are taken as they are; `backup`, `../old` and
    /// `a/b` are resolved against `self`.
    pub fn resolve(&self, input: &str) -> (r: Result<VPath>)
        ensures
            r is Ok <==> spec_resolve(self@, input@) is Some,
            r matches Ok(p) ==> Some(p@) == spec_resolve(self@, input@) && (self@.wf() ==> p@.wf()),
            r matches Err(e) ==> e is InvalidPath,
    {
        let chars = chars_of(input);
        let t = trim_chars(&chars);
        if t.len() == 0 {
            return Ok(self.clone());
        }
        let is_uri = split_uri(&t).is_some();
        if is_uri || t[0] == '/' {
            let ts = string_of(&t);
            return VPath::parse(ts.as_str());
        }
        let pieces = split_chars(&t, '/');
        let mut out = self.clone();
        let mut i: usize = 0;
        proof {
            assert(char_vecs(pieces@).take(0) =~= Seq::<Seq<char>>::empty());
            assert(spec_resolve(self@, input@) == resolve_steps(self@, split_on(t@, '/')));
        }
        while i < pieces.len()
            invariant
                i <= pieces@.len(),
                char_vecs(pieces@) == split_on(t@, '/'),
                spec_resolve(self@, input@) == resolve_steps(self@, split_on(t@, '/')),
                resolve_steps(self@, char_vecs(pieces@).take(i as int)) == Some(out@),
                self@.wf() ==> out@.wf(),
            decreases pieces@.len() - i,
        {
            let piece = &pieces[i];
            let ghost taken = char_vecs(pieces@).take(i + 1);
            proof {
                assert(taken.drop_last() =~= char_vecs(pieces@).take(i as int));
                assert(taken.last() == piece@);
            }
            if piece.len() == 0 || is_dot(piece) {
            } else if is_dot_dot(piece) {
                match out.parent() {
                    Some(p) => {
                        out = p;
                    },
                    None => {},
                }
            } else {
                let name = string_of(piece);
                match out.join(name.as_str()) {
                    Ok(p) => {
                        out = p;
                    },
                    Err(e) => {
                        proof {
                            lemma_resolve_steps_none(self@, char_vecs(pieces@), i + 1);
                            assert(char_vecs(pieces@).take(pieces@.len() as int) =~= char_vecs(pieces@));
                        }
                        return Err(e);
                    },
                }
            }
            i += 1;
        }
        assert(char_vecs(pieces@).take(pieces@.len() as int) =~= char_vecs(pieces@));
        Ok(out)
    }
}

} // verus!

verus! {

// ---------------------------------------------------------------------------------------------
// How moving down and up relate
// ---------------------------------------------------------------------------------------------

/// Going up from a child lands back in the folder it was made in.
pub proof fn lemma_parent_of_join(p: PathV, name: Seq<char>)
    ensures
        spec_parent(spec_join(p, name)) == Some(p),
{
    let c = spec_join(p, name);
    if p.layers.len() > 0 {
        let l = p.layers.last();
        assert(c.layers.last().parts == l.parts.push(name));
        assert(l.parts.push(name).drop_last() =~= l.parts);
        assert(c.layers.update(c.layers.len() - 1, LayerV { kind: l.kind, parts: l.parts }) =~= p.layers);
    } else {
        match p.base {
            BaseV::Local(parts) => {
                assert(parts.push(name).drop_last() =~= parts);
                assert(p.layers =~= Seq::<LayerV>::empty());
            },
            BaseV::Remote(s, a, parts) => {
                assert(parts.push(name).drop_last() =~= parts);
                assert(p.layers =~= Seq::<LayerV>::empty());
            },
        }
    }
}

/// A child's name is the name it was made with.
pub proof fn lemma_file_name_of_join(p: PathV, name: Seq<char>)
    requires
        valid_name(name),
    ensures
        spec_file_name(spec_join(p, name)) == Some(name),
{
}

/// A folder holds itself and every child made in it.
pub proof fn lemma_join_starts_with(p: PathV, name: Seq<char>)
    ensures
        spec_starts_with(p, p),
        spec_starts_with(spec_join(p, name), p),
{
    let c = spec_join(p, name);
    let n = p.layers.len();
    if n > 0 {
        let l = p.layers.last();
        assert(p.layers.take(n - 1) =~= c.layers.take(n - 1));
        assert(l.parts.push(name).take(l.parts.len() as int) =~= l.parts);
        assert(l.parts.take(l.parts.len() as int) =~= l.parts);
    } else {
        match p.base {
            BaseV::Local(parts) => {
                assert(parts.push(name).take(parts.len() as int) =~= parts);
                assert(parts.take(parts.len() as int) =~= parts);
            },
            BaseV::Remote(s, a, parts) => {
                assert(parts.push(name).take(parts.len() as int) =~= parts);
                assert(parts.take(parts.len() as int) =~= parts);
            },
        }
    }
}

} // verus!
