//! Why the URI form of a path reads back as the same path.
//!
//! The URI form is meant to be unambiguous: [`VPath::to_uri`] and [`VPath::parse`]
//! undo each other. Everything here is proof, built up from the pieces of the
//! text form: percent-encoding, the `/` and `!` separators, and the
//! `kind:...:scheme://` prefix.
use vstd::prelude::*;
use vstd::utf8::*;

use crate::text::{split_on, lemma_split_on_nonempty};
use crate::vpath::{
    base_uri, colon_slash_slash, dot, dot_dot, inner_text, normalize, decode_part, decode_pieces, enc_inner, enc_local, enc_parts, file_slash_slash,
    file_word, find, hex_char, hex_value, is_ascii_alpha, is_file_scheme, is_hex_byte, is_scheme_char,
    is_unreserved, kinds_prefix, layers_suffix, local_part_ok, lower, native_pieces, opt_prepend, pct_byte,
    pct_decode, pct_encode, remote_part_ok, slash_joined, spec_base, spec_decode_local, spec_from_encoded,
    spec_layers, spec_parse, spec_split_uri, spec_to_uri, valid_authority, valid_kind, valid_name, valid_scheme,
    BaseV, LayerV, PathV,
};

verus! {

// ---------------------------------------------------------------------------------------------
// UTF-8 and percent-encoding
// ---------------------------------------------------------------------------------------------

proof fn lemma_encode_concat(a: Seq<char>, b: Seq<char>)
    ensures
        encode_utf8(a + b) == encode_utf8(a) + encode_utf8(b),
    decreases a.len(),
{
    if a.len() > 0 {
        assert((a + b).drop_first() =~= a.drop_first() + b);
        assert((a + b)[0] == a[0]);
        lemma_encode_concat(a.drop_first(), b);
        assert(encode_utf8(a + b) =~= encode_utf8(a) + encode_utf8(b));
    } else {
        assert(a + b =~= b);
        assert(encode_utf8(a) =~= Seq::<u8>::empty());
        assert(encode_utf8(a) + encode_utf8(b) =~= encode_utf8(b));
    }
}

/// One ASCII character is one byte, its code.
proof fn lemma_encode_ascii(c: char)
    requires
        (c as u32) < 128,
    ensures
        encode_utf8(seq![c]) == seq![c as u8],
{
    let s = seq![c];
    assert(is_ascii_chars(s));
    is_ascii_chars_encode_utf8(s);
    assert(encode_utf8(s) =~= seq![c as u8]);
}

proof fn lemma_hex_char(n: u8)
    requires
        n < 16,
    ensures
        (hex_char(n) as u32) < 128,
        is_hex_byte(hex_char(n) as u8),
        hex_value(hex_char(n) as u8) == n,
        hex_char(n) as u8 != 0x2F,
        hex_char(n) as u8 != 0x21,
{
}

/// `pct_byte` as the bytes of its text.
pub open spec fn pct_byte_bytes(b: u8, keep_slash: bool) -> Seq<u8> {
    if is_unreserved(b) || (keep_slash && b == 0x2F) {
        seq![b]
    } else {
        seq![0x25u8, hex_char(b / 16) as u8, hex_char(b % 16) as u8]
    }
}

proof fn lemma_pct_byte(b: u8, keep_slash: bool)
    ensures
        encode_utf8(pct_byte(b, keep_slash)) == pct_byte_bytes(b, keep_slash),
        !pct_byte(b, keep_slash).contains('!'),
        !keep_slash ==> !pct_byte(b, keep_slash).contains('/'),
        pct_byte(b, keep_slash).len() > 0,
{
    if is_unreserved(b) || (keep_slash && b == 0x2F) {
        assert((b as char) as u32 == b as u32);
        lemma_encode_ascii(b as char);
        assert(((b as char) as u8) == b);
    } else {
        lemma_hex_char(b / 16);
        lemma_hex_char(b % 16);
        let s = pct_byte(b, keep_slash);
        assert(s =~= seq!['%'] + seq![hex_char(b / 16)] + seq![hex_char(b % 16)]);
        lemma_encode_ascii('%');
        lemma_encode_ascii(hex_char(b / 16));
        lemma_encode_ascii(hex_char(b % 16));
        lemma_encode_concat(seq!['%'], seq![hex_char(b / 16)]);
        lemma_encode_concat(seq!['%'] + seq![hex_char(b / 16)], seq![hex_char(b % 16)]);
        assert(encode_utf8(s) =~= pct_byte_bytes(b, keep_slash));
    }
}

/// Percent-encoding, taken from the front.
proof fn lemma_pct_encode_front(bytes: Seq<u8>, keep_slash: bool)
    requires
        bytes.len() > 0,
    ensures
        pct_encode(bytes, keep_slash) == pct_byte(bytes[0], keep_slash) + pct_encode(bytes.drop_first(), keep_slash),
    decreases bytes.len(),
{
    if bytes.len() == 1 {
        assert(bytes.drop_last() =~= Seq::<u8>::empty());
        assert(bytes.drop_first() =~= Seq::<u8>::empty());
        assert(pct_encode(bytes, keep_slash) =~= pct_byte(bytes[0], keep_slash) + pct_encode(bytes.drop_first(), keep_slash));
    } else {
        lemma_pct_encode_front(bytes.drop_last(), keep_slash);
        assert(bytes.drop_last().drop_first() =~= bytes.drop_first().drop_last());
        assert(bytes.drop_first().last() == bytes.last());
        assert(bytes.drop_last()[0] == bytes[0]);
        assert(pct_encode(bytes, keep_slash) =~= pct_byte(bytes[0], keep_slash) + pct_encode(bytes.drop_first(), keep_slash));
    }
}

/// The encoded text never holds a `!`, nor a `/` unless slashes are kept.
proof fn lemma_pct_encode_chars(bytes: Seq<u8>, keep_slash: bool)
    ensures
        !pct_encode(bytes, keep_slash).contains('!'),
        !keep_slash ==> !pct_encode(bytes, keep_slash).contains('/'),
        bytes.len() > 0 ==> pct_encode(bytes, keep_slash).len() > 0,
    decreases bytes.len(),
{
    if bytes.len() > 0 {
        lemma_pct_encode_chars(bytes.drop_last(), keep_slash);
        lemma_pct_byte(bytes.last(), keep_slash);
        let a = pct_encode(bytes.drop_last(), keep_slash);
        let b = pct_byte(bytes.last(), keep_slash);
        assert forall|c: char| (a + b).contains(c) implies a.contains(c) || b.contains(c) by {
            let k = choose|k: int| 0 <= k < (a + b).len() && (a + b)[k] == c;
            if k < a.len() {
                assert(a[k] == c);
            } else {
                assert(b[k - a.len()] == c);
            }
        }
    }
}

/// Decoding what was encoded gives back the bytes, whatever follows.
pub proof fn lemma_pct_decode_encoded(bytes: Seq<u8>, keep_slash: bool, rest: Seq<u8>)
    ensures
        pct_decode(encode_utf8(pct_encode(bytes, keep_slash)) + rest) == opt_prepend(bytes, pct_decode(rest)),
    decreases bytes.len(),
{
    if bytes.len() == 0 {
        assert(encode_utf8(pct_encode(bytes, keep_slash)) =~= Seq::<u8>::empty());
        assert(Seq::<u8>::empty() + rest =~= rest);
        match pct_decode(rest) {
            Some(r) => assert(bytes + r =~= r),
            None => {},
        }
    } else {
        let b0 = bytes[0];
        let tail = bytes.drop_first();
        lemma_pct_encode_front(bytes, keep_slash);
        lemma_pct_byte(b0, keep_slash);
        lemma_encode_concat(pct_byte(b0, keep_slash), pct_encode(tail, keep_slash));
        let head = pct_byte_bytes(b0, keep_slash);
        let more = encode_utf8(pct_encode(tail, keep_slash)) + rest;
        assert(encode_utf8(pct_encode(bytes, keep_slash)) + rest =~= head + more);
        lemma_pct_decode_encoded(tail, keep_slash, rest);
        let whole = head + more;
        if is_unreserved(b0) || (keep_slash && b0 == 0x2F) {
            assert(whole[0] == b0);
            assert(b0 != 0x25);
            assert(whole.drop_first() =~= more);
        } else {
            lemma_hex_char(b0 / 16);
            lemma_hex_char(b0 % 16);
            assert(whole[0] == 0x25);
            assert(whole.skip(3) =~= more);
            assert((hex_value(whole[1]) * 16 + hex_value(whole[2])) as u8 == b0);
        }
        match pct_decode(rest) {
            Some(r) => {
                assert(seq![b0] + (tail + r) =~= bytes + r);
            },
            None => {},
        }
    }
}

/// Encoded bytes decode to themselves.
pub proof fn lemma_pct_roundtrip(bytes: Seq<u8>, keep_slash: bool)
    ensures
        pct_decode(encode_utf8(pct_encode(bytes, keep_slash))) == Some(bytes),
{
    lemma_pct_decode_encoded(bytes, keep_slash, Seq::empty());
    assert(encode_utf8(pct_encode(bytes, keep_slash)) + Seq::<u8>::empty() =~= encode_utf8(pct_encode(bytes, keep_slash)));
    assert(bytes + Seq::<u8>::empty() =~= bytes);
}

// ---------------------------------------------------------------------------------------------
// Separators
// ---------------------------------------------------------------------------------------------

/// Splitting at a separator that joins two texts splits each of them.
proof fn lemma_split_concat(a: Seq<char>, b: Seq<char>, sep: char)
    ensures
        split_on(a + seq![sep] + b, sep) == split_on(a, sep) + split_on(b, sep),
    decreases b.len(),
{
    let whole = a + seq![sep] + b;
    if b.len() == 0 {
        assert(whole.drop_last() =~= a);
        assert(split_on(b, sep) =~= seq![Seq::<char>::empty()]);
        assert(split_on(whole, sep) =~= split_on(a, sep) + split_on(b, sep));
    } else {
        lemma_split_concat(a, b.drop_last(), sep);
        assert(whole.drop_last() =~= a + seq![sep] + b.drop_last());
        assert(whole.last() == b.last());
        lemma_split_on_nonempty(b.drop_last(), sep);
        lemma_split_on_nonempty(a, sep);
        let x = split_on(a, sep);
        let y = split_on(b.drop_last(), sep);
        if b.last() == sep {
            assert((x + y).push(Seq::<char>::empty()) =~= x + y.push(Seq::<char>::empty()));
        } else {
            assert((x + y).update((x + y).len() - 1, (x + y).last().push(b.last())) =~= x + y.update(
                y.len() - 1,
                y.last().push(b.last()),
            ));
        }
    }
}

/// A text with no separator in it is one piece.
proof fn lemma_split_single(a: Seq<char>, sep: char)
    requires
        !a.contains(sep),
    ensures
        split_on(a, sep) == seq![a],
    decreases a.len(),
{
    if a.len() > 0 {
        assert(!a.drop_last().contains(sep)) by {
            if a.drop_last().contains(sep) {
                let k = choose|k: int| 0 <= k < a.drop_last().len() && a.drop_last()[k] == sep;
                assert(a[k] == sep);
            }
        }
        lemma_split_single(a.drop_last(), sep);
        assert(a.last() != sep) by {
            assert(a[a.len() - 1] == a.last());
        }
        assert(a.drop_last().push(a.last()) =~= a);
        assert(seq![a.drop_last()].update(0, a.drop_last().push(a.last())) =~= seq![a]);
    } else {
        assert(a =~= Seq::<char>::empty());
    }
}

proof fn lemma_concat_contains(a: Seq<char>, b: Seq<char>, c: char)
    ensures
        (a + b).contains(c) <==> (a.contains(c) || b.contains(c)),
{
    if (a + b).contains(c) {
        let k = choose|k: int| 0 <= k < (a + b).len() && (a + b)[k] == c;
        if k < a.len() {
            assert(a[k] == c);
        } else {
            assert(b[k - a.len()] == c);
        }
    }
    if a.contains(c) {
        let k = choose|k: int| 0 <= k < a.len() && a[k] == c;
        assert((a + b)[k] == c);
    }
    if b.contains(c) {
        let k = choose|k: int| 0 <= k < b.len() && b[k] == c;
        assert((a + b)[a.len() + k] == c);
    }
}

/// One name, encoded.
pub open spec fn enc_name(p: Seq<char>, keep_slash: bool) -> Seq<char> {
    pct_encode(encode_utf8(p), keep_slash)
}

pub open spec fn enc_names(parts: Seq<Seq<char>>, keep_slash: bool) -> Seq<Seq<char>> {
    parts.map_values(|p: Seq<char>| enc_name(p, keep_slash))
}

/// The `/`-separated pieces of encoded names.
proof fn lemma_split_enc_parts(parts: Seq<Seq<char>>)
    ensures
        split_on(enc_parts(parts, false), '/') == seq![Seq::<char>::empty()] + enc_names(parts, false),
    decreases parts.len(),
{
    if parts.len() == 0 {
        assert(enc_parts(parts, false) =~= Seq::<char>::empty());
        assert(enc_names(parts, false) =~= Seq::<Seq<char>>::empty());
        assert(split_on(Seq::<char>::empty(), '/') =~= seq![Seq::<char>::empty()] + enc_names(parts, false));
    } else {
        lemma_split_enc_parts(parts.drop_last());
        let e = enc_name(parts.last(), false);
        lemma_pct_encode_chars(encode_utf8(parts.last()), false);
        lemma_split_concat(enc_parts(parts.drop_last(), false), e, '/');
        lemma_split_single(e, '/');
        assert(enc_parts(parts, false) == enc_parts(parts.drop_last(), false) + seq!['/'] + e);
        assert(enc_names(parts, false) =~= enc_names(parts.drop_last(), false).push(e));
        assert(seq![Seq::<char>::empty()] + enc_names(parts, false) =~= (seq![Seq::<char>::empty()] + enc_names(
            parts.drop_last(),
            false,
        )) + seq![e]);
    }
}

/// Names come back out of their encoding.
proof fn lemma_decode_part(p: Seq<char>)
    requires
        valid_name(p),
    ensures
        decode_part(enc_name(p, false)) == Some(p),
        enc_name(p, false).len() > 0,
{
    lemma_pct_roundtrip(encode_utf8(p), false);
    encode_utf8_valid_utf8(p);
    encode_utf8_decode_utf8(p);
    assert(p =~= seq![p[0]] + p.drop_first());
    lemma_encode_concat(seq![p[0]], p.drop_first());
    encode_utf8_valid_utf8(seq![p[0]]);
    assert(encode_utf8(seq![p[0]]).len() > 0) by {
        reveal_with_fuel(encode_utf8, 2);
    }
    lemma_pct_encode_chars(encode_utf8(p), false);
}

proof fn lemma_decode_pieces(parts: Seq<Seq<char>>)
    requires
        forall|i: int| 0 <= i < parts.len() ==> valid_name(#[trigger] parts[i]),
    ensures
        decode_pieces(seq![Seq::<char>::empty()] + enc_names(parts, false)) == Some(parts),
    decreases parts.len(),
{
    let pieces = seq![Seq::<char>::empty()] + enc_names(parts, false);
    if parts.len() == 0 {
        assert(pieces.drop_last() =~= Seq::<Seq<char>>::empty());
        assert(pieces.last() =~= Seq::<char>::empty());
        assert(parts =~= Seq::<Seq<char>>::empty());
        assert(decode_pieces(pieces.drop_last()) == Some(Seq::<Seq<char>>::empty()));
    } else {
        let init = parts.drop_last();
        assert forall|i: int| 0 <= i < init.len() implies valid_name(#[trigger] init[i]) by {
            assert(init[i] == parts[i]);
        }
        lemma_decode_pieces(init);
        assert(pieces.drop_last() =~= seq![Seq::<char>::empty()] + enc_names(init, false));
        assert(pieces.last() == enc_name(parts.last(), false));
        assert(valid_name(parts[parts.len() - 1]));
        lemma_decode_part(parts.last());
        assert(decode_pieces(pieces.drop_last()) == Some(init));
        assert(init.push(parts.last()) =~= parts);
    }
}

/// The names of an inner path come back out of its encoding.
pub proof fn lemma_inner_roundtrip(parts: Seq<Seq<char>>)
    requires
        forall|i: int| 0 <= i < parts.len() ==> valid_name(#[trigger] parts[i]),
    ensures
        spec_from_encoded(enc_inner(parts)) == Some(parts),
        !enc_inner(parts).contains('!'),
        enc_inner(parts).len() > 0 && enc_inner(parts)[0] == '/',
{
    lemma_no_bang(parts, false);
    if parts.len() == 0 {
        let s = seq!['/'];
        assert(split_on(s, '/') =~= seq![Seq::<char>::empty(), Seq::<char>::empty()]) by {
            assert(s.drop_last() =~= Seq::<char>::empty());
            assert(split_on(s.drop_last(), '/') =~= seq![Seq::<char>::empty()]);
            assert(s.last() == '/');
            assert(seq![Seq::<char>::empty()].push(Seq::<char>::empty()) =~= seq![
                Seq::<char>::empty(),
                Seq::<char>::empty(),
            ]);
        }
        assert(enc_names(parts, false) =~= Seq::<Seq<char>>::empty());
        let pieces = seq![Seq::<char>::empty(), Seq::<char>::empty()];
        assert(pieces.drop_last() =~= seq![Seq::<char>::empty()]);
        assert(seq![Seq::<char>::empty()].drop_last() =~= Seq::<Seq<char>>::empty());
        let one = seq![Seq::<char>::empty()];
        assert(decode_pieces(one.drop_last()) == Some(Seq::<Seq<char>>::empty()));
        assert(one.last().len() == 0);
        assert(decode_pieces(one) == Some(Seq::<Seq<char>>::empty()));
        assert(pieces.last().len() == 0);
        assert(decode_pieces(pieces) == Some(Seq::<Seq<char>>::empty()));
        assert(parts =~= Seq::<Seq<char>>::empty());
        assert(!s.contains('!'));
    } else {
        lemma_split_enc_parts(parts);
        lemma_decode_pieces(parts);
        lemma_enc_parts_start(parts, false);
    }
}

proof fn lemma_enc_parts_start(parts: Seq<Seq<char>>, keep_slash: bool)
    requires
        parts.len() > 0,
    ensures
        enc_parts(parts, keep_slash).len() > 0,
        enc_parts(parts, keep_slash)[0] == '/',
    decreases parts.len(),
{
    if parts.len() > 1 {
        lemma_enc_parts_start(parts.drop_last(), keep_slash);
    } else {
        assert(enc_parts(parts.drop_last(), keep_slash) =~= Seq::<char>::empty());
    }
}

proof fn lemma_no_bang(parts: Seq<Seq<char>>, keep_slash: bool)
    ensures
        !enc_parts(parts, keep_slash).contains('!'),
        !enc_inner(parts).contains('!'),
        !enc_local(parts).contains('!'),
    decreases parts.len(),
{
    if parts.len() > 0 {
        lemma_no_bang(parts.drop_last(), keep_slash);
        lemma_pct_encode_chars(encode_utf8(parts.last()), keep_slash);
        lemma_concat_contains(enc_parts(parts.drop_last(), keep_slash), seq!['/'], '!');
        lemma_concat_contains(
            enc_parts(parts.drop_last(), keep_slash) + seq!['/'],
            enc_name(parts.last(), keep_slash),
            '!',
        );
        lemma_no_bang_other(parts);
    } else {
        assert(!seq!['/'].contains('!'));
        assert(!Seq::<char>::empty().contains('!'));
    }
}

proof fn lemma_no_bang_other(parts: Seq<Seq<char>>)
    ensures
        !enc_parts(parts, false).contains('!'),
        !enc_parts(parts, true).contains('!'),
    decreases parts.len(),
{
    if parts.len() > 0 {
        lemma_no_bang_other(parts.drop_last());
        lemma_pct_encode_chars(encode_utf8(parts.last()), false);
        lemma_pct_encode_chars(encode_utf8(parts.last()), true);
        lemma_concat_contains(enc_parts(parts.drop_last(), false), seq!['/'], '!');
        lemma_concat_contains(enc_parts(parts.drop_last(), false) + seq!['/'], enc_name(parts.last(), false), '!');
        lemma_concat_contains(enc_parts(parts.drop_last(), true), seq!['/'], '!');
        lemma_concat_contains(enc_parts(parts.drop_last(), true) + seq!['/'], enc_name(parts.last(), true), '!');
    } else {
        assert(!Seq::<char>::empty().contains('!'));
    }
}

// ---------------------------------------------------------------------------------------------
// Local paths
// ---------------------------------------------------------------------------------------------

/// Decoding the URI form of local names gives the UTF-8 of their native text, whatever follows.
proof fn lemma_local_decode(parts: Seq<Seq<char>>, rest: Seq<u8>)
    ensures
        pct_decode(encode_utf8(enc_parts(parts, true)) + rest) == opt_prepend(
            encode_utf8(slash_joined(parts)),
            pct_decode(rest),
        ),
    decreases parts.len(),
{
    if parts.len() == 0 {
        assert(enc_parts(parts, true) =~= Seq::<char>::empty());
        assert(slash_joined(parts) =~= Seq::<char>::empty());
        assert(encode_utf8(Seq::<char>::empty()) =~= Seq::<u8>::empty());
        assert(Seq::<u8>::empty() + rest =~= rest);
        match pct_decode(rest) {
            Some(r) => assert(Seq::<u8>::empty() + r =~= r),
            None => {},
        }
    } else {
        let init = parts.drop_last();
        let last = parts.last();
        let e = pct_encode(encode_utf8(last), true);
        lemma_encode_concat(enc_parts(init, true) + seq!['/'], e);
        lemma_encode_concat(enc_parts(init, true), seq!['/']);
        lemma_encode_ascii('/');
        let rest2 = seq![0x2Fu8] + (encode_utf8(e) + rest);
        assert(encode_utf8(enc_parts(parts, true)) + rest =~= encode_utf8(enc_parts(init, true)) + rest2);
        lemma_local_decode(init, rest2);
        assert(rest2[0] == 0x2F);
        assert(rest2.drop_first() =~= encode_utf8(e) + rest);
        lemma_pct_decode_encoded(encode_utf8(last), true, rest);
        lemma_encode_concat(slash_joined(init) + seq!['/'], last);
        lemma_encode_concat(slash_joined(init), seq!['/']);
        match pct_decode(rest) {
            Some(r) => {
                assert(encode_utf8(slash_joined(init)) + (seq![0x2Fu8] + (encode_utf8(last) + r))
                    =~= encode_utf8(slash_joined(parts)) + r);
            },
            None => {},
        }
    }
}

/// The `/`-separated pieces of joined names.
proof fn lemma_split_slash_joined(parts: Seq<Seq<char>>)
    requires
        forall|i: int| 0 <= i < parts.len() ==> !(#[trigger] parts[i]).contains('/'),
    ensures
        split_on(slash_joined(parts), '/') == seq![Seq::<char>::empty()] + parts,
    decreases parts.len(),
{
    if parts.len() == 0 {
        assert(slash_joined(parts) =~= Seq::<char>::empty());
        assert(split_on(Seq::<char>::empty(), '/') =~= seq![Seq::<char>::empty()] + parts);
    } else {
        let init = parts.drop_last();
        assert forall|i: int| 0 <= i < init.len() implies !(#[trigger] init[i]).contains('/') by {
            assert(init[i] == parts[i]);
        }
        lemma_split_slash_joined(init);
        assert(!parts[parts.len() - 1].contains('/'));
        lemma_split_concat(slash_joined(init), parts.last(), '/');
        lemma_split_single(parts.last(), '/');
        assert(seq![Seq::<char>::empty()] + parts =~= (seq![Seq::<char>::empty()] + init) + seq![parts.last()]);
    }
}

/// Local names are the native components of their joined text.
proof fn lemma_native_of_parts(parts: Seq<Seq<char>>)
    requires
        forall|i: int| 0 <= i < parts.len() ==> local_part_ok(#[trigger] parts[i]),
    ensures
        native_pieces(seq![Seq::<char>::empty()] + parts) == parts,
    decreases parts.len(),
{
    let pieces = seq![Seq::<char>::empty()] + parts;
    if parts.len() == 0 {
        assert(pieces.drop_last() =~= Seq::<Seq<char>>::empty());
        assert(native_pieces(pieces.drop_last()) =~= Seq::<Seq<char>>::empty());
        assert(pieces.last().len() == 0);
        assert(parts =~= Seq::<Seq<char>>::empty());
    } else {
        let init = parts.drop_last();
        assert forall|i: int| 0 <= i < init.len() implies local_part_ok(#[trigger] init[i]) by {
            assert(init[i] == parts[i]);
        }
        lemma_native_of_parts(init);
        assert(pieces.drop_last() =~= seq![Seq::<char>::empty()] + init);
        assert(pieces.last() == parts.last());
        assert(local_part_ok(parts[parts.len() - 1]));
        assert(init.push(parts.last()) =~= parts);
    }
}

/// The names of a local path come back out of its encoding.
pub proof fn lemma_local_roundtrip(parts: Seq<Seq<char>>)
    requires
        forall|i: int| 0 <= i < parts.len() ==> local_part_ok(#[trigger] parts[i]),
    ensures
        spec_decode_local(enc_local(parts)) == Some(parts),
        !enc_local(parts).contains('!'),
        enc_local(parts).len() > 0 && enc_local(parts)[0] == '/',
{
    lemma_no_bang(parts, true);
    if parts.len() == 0 {
        let s = seq!['/'];
        lemma_encode_ascii('/');
        let b = seq![0x2Fu8];
        assert(encode_utf8(s) == b);
        assert(b.drop_first() =~= Seq::<u8>::empty());
        assert(pct_decode(b.drop_first()) == Some(Seq::<u8>::empty()));
        assert(seq![b[0]] + Seq::<u8>::empty() =~= b);
        assert(pct_decode(b) == Some(b));
        encode_utf8_valid_utf8(s);
        encode_utf8_decode_utf8(s);
        assert(split_on(s, '/') =~= seq![Seq::<char>::empty(), Seq::<char>::empty()]) by {
            assert(s.drop_last() =~= Seq::<char>::empty());
            assert(split_on(s.drop_last(), '/') =~= seq![Seq::<char>::empty()]);
            assert(s.last() == '/');
        }
        let pieces = seq![Seq::<char>::empty(), Seq::<char>::empty()];
        assert(pieces.drop_last() =~= seq![Seq::<char>::empty()]);
        assert(seq![Seq::<char>::empty()].drop_last() =~= Seq::<Seq<char>>::empty());
        let one = seq![Seq::<char>::empty()];
        assert(native_pieces(one.drop_last()) =~= Seq::<Seq<char>>::empty());
        assert(one.last().len() == 0);
        assert(native_pieces(one) =~= Seq::<Seq<char>>::empty());
        assert(pieces.last().len() == 0);
        assert(native_pieces(pieces) =~= Seq::<Seq<char>>::empty());
        assert(parts =~= Seq::<Seq<char>>::empty());
        assert(!s.contains('!'));
    } else {
        lemma_enc_parts_start(parts, true);
        lemma_local_decode(parts, Seq::empty());
        let t = slash_joined(parts);
        assert(encode_utf8(enc_parts(parts, true)) + Seq::<u8>::empty() =~= encode_utf8(enc_parts(parts, true)));
        assert(encode_utf8(t) + Seq::<u8>::empty() =~= encode_utf8(t));
        encode_utf8_valid_utf8(t);
        encode_utf8_decode_utf8(t);
        lemma_split_slash_joined(parts);
        lemma_native_of_parts(parts);
    }
}

// ---------------------------------------------------------------------------------------------
// The base
// ---------------------------------------------------------------------------------------------

/// The first `c` in `s` is at `i`.
proof fn lemma_find_at(s: Seq<char>, c: char, i: int)
    requires
        0 <= i < s.len(),
        s[i] == c,
        forall|k: int| 0 <= k < i ==> s[k] != c,
    ensures
        find(s, c) == Some(i),
    decreases i,
{
    if i > 0 {
        assert(s[0] != c);
        assert forall|k: int| 0 <= k < i - 1 implies s.drop_first()[k] != c by {
            assert(s.drop_first()[k] == s[k + 1]);
        }
        lemma_find_at(s.drop_first(), c, i - 1);
    }
}

/// The scheme a base is written with.
pub open spec fn base_scheme(b: BaseV) -> Seq<char> {
    match b {
        BaseV::Local(_) => file_word(),
        BaseV::Remote(s, _, _) => s,
    }
}

/// What follows `://` in the URI form of a base.
pub open spec fn base_part(b: BaseV) -> Seq<char> {
    match b {
        BaseV::Local(parts) => enc_local(parts),
        BaseV::Remote(_, a, parts) => a + enc_inner(parts),
    }
}

/// What a base must satisfy to come back from its URI form.
pub open spec fn base_readable(b: BaseV) -> bool {
    match b {
        BaseV::Local(parts) => forall|i: int| 0 <= i < parts.len() ==> local_part_ok(#[trigger] parts[i]),
        BaseV::Remote(s, a, parts) => {
            &&& valid_kind(s)
            &&& s.len() >= 2
            &&& !is_file_scheme(s)
            &&& valid_authority(a)
            &&& forall|i: int| 0 <= i < parts.len() ==> valid_name(#[trigger] parts[i])
        },
    }
}

proof fn lemma_base_roundtrip(b: BaseV)
    requires
        base_readable(b),
    ensures
        base_uri(b) == base_scheme(b) + colon_slash_slash() + base_part(b),
        spec_base(base_scheme(b), base_part(b)) == Some(b),
        !base_part(b).contains('!'),
        valid_scheme(base_scheme(b)),
        base_scheme(b).len() >= 2,
{
    match b {
        BaseV::Local(parts) => {
            assert(file_slash_slash() =~= file_word() + colon_slash_slash());
            assert(lower(file_word()) =~= file_word());
            lemma_local_roundtrip(parts);
        },
        BaseV::Remote(s, a, parts) => {
            lemma_inner_roundtrip(parts);
            let part = a + enc_inner(parts);
            assert forall|k: int| 0 <= k < a.len() implies part[k] != '/' by {
                assert(part[k] == a[k]);
                assert(!a.contains('/'));
            }
            assert(part[a.len() as int] == '/');
            lemma_find_at(part, '/', a.len() as int);
            assert(part.take(a.len() as int) =~= a);
            assert(part.skip(a.len() as int) =~= enc_inner(parts));
            lemma_concat_contains(a, enc_inner(parts), '!');
        },
    }
}

// ---------------------------------------------------------------------------------------------
// The layers
// ---------------------------------------------------------------------------------------------

/// The encoded inner path of each layer, outermost first.
pub open spec fn layer_sections(layers: Seq<LayerV>) -> Seq<Seq<char>> {
    layers.map_values(|l: LayerV| enc_inner(l.parts))
}

/// The layer kinds as the URI writes them: innermost first.
pub open spec fn kinds_written(layers: Seq<LayerV>) -> Seq<Seq<char>>
    decreases layers.len(),
{
    if layers.len() == 0 {
        Seq::empty()
    } else {
        seq![layers.last().kind] + kinds_written(layers.drop_last())
    }
}

proof fn lemma_kinds_written(layers: Seq<LayerV>)
    ensures
        kinds_written(layers).len() == layers.len(),
        forall|j: int|
            0 <= j < layers.len() ==> #[trigger] kinds_written(layers)[j] == layers[layers.len() - 1 - j].kind,
    decreases layers.len(),
{
    if layers.len() > 0 {
        let init = layers.drop_last();
        lemma_kinds_written(init);
        assert forall|j: int| 0 <= j < layers.len() implies #[trigger] kinds_written(layers)[j]
            == layers[layers.len() - 1 - j].kind by {
            if j > 0 {
                assert(kinds_written(layers)[j] == kinds_written(init)[j - 1]);
                assert(init[init.len() - 1 - (j - 1)] == layers[layers.len() - 1 - j]);
            }
        }
    }
}

/// Splitting the body at `!` gives the base part, then each layer's section.
proof fn lemma_split_body(part: Seq<char>, layers: Seq<LayerV>)
    requires
        !part.contains('!'),
        forall|i: int| 0 <= i < layers.len() ==> (#[trigger] layers[i]).wf(),
    ensures
        split_on(part + layers_suffix(layers), '!') == seq![part] + layer_sections(layers),
    decreases layers.len(),
{
    if layers.len() == 0 {
        assert(layers_suffix(layers) =~= Seq::<char>::empty());
        assert(part + layers_suffix(layers) =~= part);
        lemma_split_single(part, '!');
        assert(layer_sections(layers) =~= Seq::<Seq<char>>::empty());
        assert(seq![part] + layer_sections(layers) =~= seq![part]);
    } else {
        let init = layers.drop_last();
        assert forall|i: int| 0 <= i < init.len() implies (#[trigger] init[i]).wf() by {
            assert(init[i] == layers[i]);
        }
        lemma_split_body(part, init);
        let last = layers.last();
        assert(layers[layers.len() - 1].wf());
        lemma_inner_roundtrip(last.parts);
        let e = enc_inner(last.parts);
        assert(part + layers_suffix(layers) =~= (part + layers_suffix(init)) + seq!['!'] + e);
        lemma_split_concat(part + layers_suffix(init), e, '!');
        lemma_split_single(e, '!');
        assert(layer_sections(layers) =~= layer_sections(init).push(e));
        assert(seq![part] + layer_sections(layers) =~= (seq![part] + layer_sections(init)) + seq![e]);
    }
}

/// The layers read back, one section at a time.
proof fn lemma_layers_roundtrip(layers: Seq<LayerV>, n: nat)
    requires
        n <= layers.len(),
        forall|i: int| 0 <= i < layers.len() ==> (#[trigger] layers[i]).wf(),
    ensures
        spec_layers(kinds_written(layers), layer_sections(layers), n) == Some(layers.take(n as int)),
    decreases n,
{
    lemma_kinds_written(layers);
    if n == 0 {
        assert(layers.take(0) =~= Seq::<LayerV>::empty());
    } else {
        lemma_layers_roundtrip(layers, (n - 1) as nat);
        let kinds = kinds_written(layers);
        let l = layers[n - 1];
        assert(kinds[kinds.len() - n] == l.kind);
        assert(l.wf());
        lemma_inner_roundtrip(l.parts);
        assert(layer_sections(layers)[n - 1] == enc_inner(l.parts));
        assert(lower(l.kind) == l.kind);
        assert(layers.take(n - 1).push(LayerV { kind: lower(l.kind), parts: l.parts }) =~= layers.take(n as int));
    }
}

// ---------------------------------------------------------------------------------------------
// The prefix of kinds
// ---------------------------------------------------------------------------------------------

/// Past a kind and its `:`, the split goes on with that kind noted.
proof fn lemma_split_uri_step(k: Seq<char>, rest: Seq<char>, acc: Seq<Seq<char>>)
    requires
        valid_scheme(k),
        k.len() >= 2,
        rest.len() > 0,
        is_ascii_alpha(rest[0]),
    ensures
        spec_split_uri(k + seq![':'] + rest, acc) == spec_split_uri(rest, acc.push(k)),
{
    let s = k + seq![':'] + rest;
    assert forall|j: int| 0 <= j < k.len() implies s[j] != ':' by {
        assert(s[j] == k[j]);
        if j > 0 {
            assert(is_scheme_char(k[j]));
        }
    }
    lemma_find_at(s, ':', k.len() as int);
    assert(s.take(k.len() as int) =~= k);
    assert(s.skip(k.len() as int + 1) =~= rest);
}

/// Past the scheme and `://`, the split ends.
proof fn lemma_split_uri_end(scheme: Seq<char>, body: Seq<char>, acc: Seq<Seq<char>>)
    requires
        valid_scheme(scheme),
        scheme.len() >= 2,
    ensures
        spec_split_uri(scheme + colon_slash_slash() + body, acc) == Some((acc, scheme, body)),
{
    let s = scheme + colon_slash_slash() + body;
    assert forall|j: int| 0 <= j < scheme.len() implies s[j] != ':' by {
        assert(s[j] == scheme[j]);
        if j > 0 {
            assert(is_scheme_char(scheme[j]));
        }
    }
    lemma_find_at(s, ':', scheme.len() as int);
    assert(s.take(scheme.len() as int) =~= scheme);
    let after = s.skip(scheme.len() as int + 1);
    assert(after =~= seq!['/', '/'] + body);
    assert(after.skip(2) =~= body);
}

proof fn lemma_split_uri_kinds(layers: Seq<LayerV>, tail: Seq<char>, acc: Seq<Seq<char>>)
    requires
        forall|i: int| 0 <= i < layers.len() ==> (#[trigger] layers[i]).wf() && layers[i].kind.len() >= 2,
        tail.len() > 0,
        is_ascii_alpha(tail[0]),
    ensures
        spec_split_uri(kinds_prefix(layers) + tail, acc) == spec_split_uri(tail, acc + kinds_written(layers)),
        (kinds_prefix(layers) + tail).len() > 0,
        is_ascii_alpha((kinds_prefix(layers) + tail)[0]),
    decreases layers.len(),
{
    if layers.len() == 0 {
        assert(kinds_prefix(layers) + tail =~= tail);
        assert(acc + kinds_written(layers) =~= acc);
    } else {
        let init = layers.drop_last();
        let k = layers.last().kind;
        assert forall|i: int| 0 <= i < init.len() implies (#[trigger] init[i]).wf() && init[i].kind.len() >= 2 by {
            assert(init[i] == layers[i]);
        }
        lemma_split_uri_kinds(init, tail, acc.push(k));
        assert(layers[layers.len() - 1].wf() && layers[layers.len() - 1].kind.len() >= 2);
        let rest = kinds_prefix(init) + tail;
        assert(kinds_prefix(layers) + tail =~= k + seq![':'] + rest);
        lemma_split_uri_step(k, rest, acc);
        assert(acc + kinds_written(layers) =~= acc.push(k) + kinds_written(init));
        assert((kinds_prefix(layers) + tail)[0] == k[0]);
    }
}

// ---------------------------------------------------------------------------------------------
// The whole path
// ---------------------------------------------------------------------------------------------

/// Reading back the URI form of a path gives the path, for every path there
/// can be.
pub proof fn lemma_uri_roundtrip(p: PathV)
    requires
        p.wf(),
    ensures
        spec_parse(spec_to_uri(p)) == Some(p),
{
    let b = p.base;
    let layers = p.layers;
    assert(base_readable(b)) by {
        if let BaseV::Remote(s, a, parts) = b {
            assert forall|i: int| 0 <= i < parts.len() implies valid_name(#[trigger] parts[i]) by {
                assert(remote_part_ok(parts[i]));
            }
        }
    }
    lemma_base_roundtrip(b);
    let scheme = base_scheme(b);
    let body = base_part(b) + layers_suffix(layers);
    let tail = scheme + colon_slash_slash() + body;
    assert(spec_to_uri(p) =~= kinds_prefix(layers) + tail);
    assert(tail[0] == scheme[0]);
    assert forall|i: int| 0 <= i < layers.len() implies (#[trigger] layers[i]).wf() && layers[i].kind.len() >= 2 by {
        assert(p.layers[i].wf());
    }
    lemma_split_uri_kinds(layers, tail, Seq::empty());
    lemma_split_uri_end(scheme, body, Seq::<Seq<char>>::empty() + kinds_written(layers));
    let kinds = kinds_written(layers);
    assert(Seq::<Seq<char>>::empty() + kinds =~= kinds);
    lemma_kinds_written(layers);
    lemma_split_body(base_part(b), layers);
    let segs = split_on(body, '!');
    assert(segs[0] == base_part(b));
    assert(segs.skip(1) =~= layer_sections(layers));
    lemma_layers_roundtrip(layers, layers.len());
    assert(layers.take(layers.len() as int) =~= layers);
}

// ---------------------------------------------------------------------------------------------
// The text of a path inside a server or an archive
// ---------------------------------------------------------------------------------------------

/// A name an inner path can hold: not empty, not `.` or `..`, no `/`.
pub open spec fn inner_name(p: Seq<char>) -> bool {
    p.len() > 0 && p != dot() && p != dot_dot() && !p.contains('/')
}

/// Normalizing leaves only names.
pub proof fn lemma_normalize_gives_names(pieces: Seq<Seq<char>>)
    requires
        forall|i: int| 0 <= i < pieces.len() ==> !(#[trigger] pieces[i]).contains('/'),
    ensures
        forall|i: int| 0 <= i < normalize(pieces).len() ==> inner_name(#[trigger] normalize(pieces)[i]),
    decreases pieces.len(),
{
    if pieces.len() > 0 {
        let d = pieces.drop_last();
        assert forall|i: int| 0 <= i < d.len() implies !(#[trigger] d[i]).contains('/') by {
            assert(d[i] == pieces[i]);
        }
        lemma_normalize_gives_names(d);
        assert(!pieces[pieces.len() - 1].contains('/'));
        let prev = normalize(d);
        assert forall|i: int| 0 <= i < normalize(pieces).len() implies inner_name(#[trigger] normalize(pieces)[i]) by {
            if i < prev.len() {
                assert(inner_name(prev[i]));
            }
        }
    }
}

proof fn lemma_normalize_names(parts: Seq<Seq<char>>)
    requires
        forall|i: int| 0 <= i < parts.len() ==> inner_name(#[trigger] parts[i]),
    ensures
        normalize(seq![Seq::<char>::empty()] + parts) == parts,
    decreases parts.len(),
{
    let whole = seq![Seq::<char>::empty()] + parts;
    if parts.len() == 0 {
        assert(whole =~= seq![Seq::<char>::empty()]);
        assert(whole.drop_last() =~= Seq::<Seq<char>>::empty());
        assert(normalize(whole) == normalize(whole.drop_last()));
        assert(parts =~= Seq::<Seq<char>>::empty());
    } else {
        let init = parts.drop_last();
        assert forall|i: int| 0 <= i < init.len() implies inner_name(#[trigger] init[i]) by {
            assert(init[i] == parts[i]);
        }
        lemma_normalize_names(init);
        assert(whole.drop_last() =~= seq![Seq::<char>::empty()] + init);
        assert(whole.last() == parts.last());
        assert(inner_name(parts[parts.len() - 1]));
        assert(normalize(whole) == normalize(whole.drop_last()).push(whole.last()));
        assert(init.push(parts.last()) =~= parts);
    }
}

/// Reading the text of an inner path made of names gives the same path back.
pub proof fn lemma_inner_text_reads_back(parts: Seq<Seq<char>>)
    requires
        forall|i: int| 0 <= i < parts.len() ==> inner_name(#[trigger] parts[i]),
    ensures
        normalize(split_on(inner_text(parts), '/')) == parts,
{
    if parts.len() == 0 {
        assert(split_on(seq!['/'], '/') =~= seq![Seq::<char>::empty(), Seq::<char>::empty()]) by {
            assert(seq!['/'].drop_last() =~= Seq::<char>::empty());
            assert(split_on(Seq::<char>::empty(), '/') == seq![Seq::<char>::empty()]);
        }
        assert(inner_text(parts) == seq!['/']);
        let two = seq![Seq::<char>::empty(), Seq::<char>::empty()];
        let one = seq![Seq::<char>::empty()];
        assert(two.drop_last() =~= one);
        assert(one.drop_last() =~= Seq::<Seq<char>>::empty());
        assert(normalize(one) == normalize(one.drop_last()));
        assert(normalize(two) == normalize(two.drop_last()));
        assert(parts =~= Seq::<Seq<char>>::empty());
    } else {
        assert forall|i: int| 0 <= i < parts.len() implies !(#[trigger] parts[i]).contains('/') by {
            assert(inner_name(parts[i]));
        }
        lemma_split_slash_joined(parts);
        lemma_normalize_names(parts);
        assert(inner_text(parts) == slash_joined(parts));
    }
}

/// Parsing an inner path never fails and is idempotent: its parts are names
/// (`..` at the root stays at the root), and parsing its text form again gives
/// the same path.
pub proof fn lemma_inner_parse_idempotent(s: Seq<char>)
    ensures
        forall|i: int|
            0 <= i < normalize(split_on(s, '/')).len() ==> inner_name(#[trigger] normalize(split_on(s, '/'))[i]),
        normalize(split_on(inner_text(normalize(split_on(s, '/'))), '/')) == normalize(split_on(s, '/')),
{
    crate::vpath::lemma_split_on_no_sep(s, '/');
    lemma_normalize_gives_names(split_on(s, '/'));
    lemma_inner_text_reads_back(normalize(split_on(s, '/')));
}

} // verus!
