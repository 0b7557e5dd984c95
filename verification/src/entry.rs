//! The composed-settings input digest and the entry names derived from it.
//!
//! An entry's name is a function of the profile's name, its file's path and
//! content, and each piece's path and content, in order: nothing about the
//! terminal, the working directory or the account enters it.

use vstd::prelude::*;

use crate::digest::{sha256, sha256_spec};
use crate::encoding::{lemma_utf8_of_ascii, utf8, utf8_bytes};
use crate::identifier::{is_identifier, is_tail_char, Identifier};
use crate::paths::{join, join_text};
use crate::text::{hex_of, hex_string, push_str, chars_of, string_of};
use crate::error::owned;

verus! {

/// How many hexadecimal characters name an entry.
pub const SHORT: usize = 12;

/// The literal tag that versions the preimage format; changing the format
/// renames every entry, so an old sidecar is unreachable rather than misread.
pub open spec fn domain_tag() -> Seq<char> {
    "session-wrapper-composed-v1"@
}

/// Eight bytes, big-endian.
pub open spec fn be64(n: u64) -> Seq<u8> {
    seq![
        (n >> 56u64) as u8,
        (n >> 48u64) as u8,
        (n >> 40u64) as u8,
        (n >> 32u64) as u8,
        (n >> 24u64) as u8,
        (n >> 16u64) as u8,
        (n >> 8u64) as u8,
        n as u8,
    ]
}

/// One field as the hasher is fed it: its length in eight big-endian bytes,
/// then the bytes.
pub open spec fn frame(f: Seq<u8>) -> Seq<u8> {
    be64(f.len() as u64) + f
}

/// A list of fields, each framed, one after another.
pub open spec fn framed(fields: Seq<Seq<u8>>) -> Seq<u8>
    decreases fields.len(),
{
    if fields.len() == 0 {
        Seq::empty()
    } else {
        framed(fields.drop_last()) + frame(fields.last())
    }
}

/// One piece's contribution to the digest.
#[derive(Debug)]
pub struct PieceDigest {
    /// The piece's resolved absolute path.
    pub path: Vec<u8>,
    /// The SHA-256 of the piece's bytes.
    pub content: Vec<u8>,
}

/// The fields the pieces contribute, path then content for each, in order.
pub open spec fn piece_fields(pieces: Seq<PieceDigest>) -> Seq<Seq<u8>>
    decreases pieces.len(),
{
    if pieces.len() == 0 {
        Seq::empty()
    } else {
        piece_fields(pieces.drop_last()) + seq![pieces.last().path@, pieces.last().content@]
    }
}

/// The pieces as the pairs of their path and content bytes.
pub open spec fn piece_views(pieces: Seq<PieceDigest>) -> Seq<(Seq<u8>, Seq<u8>)> {
    pieces.map_values(|p: PieceDigest| (p.path@, p.content@))
}

/// Everything the entry key is a function of, field by field.
pub open spec fn input_fields(profile: Seq<char>, path: Seq<u8>, content: Seq<u8>, pieces: Seq<PieceDigest>) -> Seq<Seq<u8>> {
    seq![utf8(domain_tag()), utf8(profile), path, content] + piece_fields(pieces)
}

/// Everything the entry key is a function of.
#[derive(Debug)]
pub struct EntryInputs<'a> {
    /// The profile name.
    pub profile: &'a Identifier,
    /// The profile file's resolved absolute path.
    pub profile_path: &'a Vec<u8>,
    /// The SHA-256 of the profile file's bytes.
    pub profile_content: &'a Vec<u8>,
    /// The pieces, in profile order.
    pub pieces: &'a Vec<PieceDigest>,
}

/// Framing one more field appends its frame.
proof fn lemma_framed_push(fields: Seq<Seq<u8>>, f: Seq<u8>)
    ensures
        framed(fields.push(f)) == framed(fields) + frame(f),
{
    assert(fields.push(f).drop_last() =~= fields);
    assert(fields.push(f).last() == f);
}

/// Two concatenations with equally long fronts are equal part by part.
proof fn lemma_split_equal(x: Seq<u8>, y: Seq<u8>, u: Seq<u8>, v: Seq<u8>)
    requires
        x.len() == u.len(),
        x + y == u + v,
    ensures
        x == u,
        y == v,
{
    assert(x =~= (x + y).take(x.len() as int));
    assert(u =~= (u + v).take(u.len() as int));
    assert(y =~= (x + y).skip(x.len() as int));
    assert(v =~= (u + v).skip(u.len() as int));
}

fn push_field(out: &mut Vec<u8>, f: &[u8])
    ensures
        final(out)@ == old(out)@ + frame(f@),
{
    let n = f.len() as u64;
    out.push((n >> 56u64) as u8);
    out.push((n >> 48u64) as u8);
    out.push((n >> 40u64) as u8);
    out.push((n >> 32u64) as u8);
    out.push((n >> 24u64) as u8);
    out.push((n >> 16u64) as u8);
    out.push((n >> 8u64) as u8);
    out.push(n as u8);
    let ghost start = out@;
    let mut i: usize = 0;
    while i < f.len()
        invariant
            i <= f@.len(),
            out@ == start + f@.take(i as int),
        decreases f.len() - i,
    {
        out.push(f[i]);
        proof {
            assert(f@.take(i + 1) =~= f@.take(i as int).push(f@[i as int]));
        }
        i = i + 1;
    }
    proof {
        assert(f@.take(f@.len() as int) =~= f@);
        assert(start =~= old(out)@ + be64(n));
        assert(final(out)@ =~= old(out)@ + frame(f@));
    }
}

/// Computes the full input digest: SHA-256 of every field, framed.
pub fn input_digest(inputs: &EntryInputs) -> (r: Vec<u8>)
    ensures
        r@ == sha256_spec(
            framed(input_fields(inputs.profile@, inputs.profile_path@, inputs.profile_content@, inputs.pieces@)),
        ),
        r@.len() == 32,
{
    let ghost head = seq![
        utf8(domain_tag()),
        utf8(inputs.profile@),
        inputs.profile_path@,
        inputs.profile_content@,
    ];
    let mut preimage: Vec<u8> = Vec::new();
    let tag = utf8_bytes("session-wrapper-composed-v1");
    let name = utf8_bytes(inputs.profile.as_str());
    push_field(&mut preimage, tag.as_slice());
    push_field(&mut preimage, name.as_slice());
    push_field(&mut preimage, inputs.profile_path.as_slice());
    push_field(&mut preimage, inputs.profile_content.as_slice());
    proof {
        let e = Seq::<Seq<u8>>::empty();
        lemma_framed_push(e, head[0]);
        lemma_framed_push(e.push(head[0]), head[1]);
        lemma_framed_push(e.push(head[0]).push(head[1]), head[2]);
        lemma_framed_push(e.push(head[0]).push(head[1]).push(head[2]), head[3]);
        assert(e.push(head[0]).push(head[1]).push(head[2]).push(head[3]) =~= head);
        assert(preimage@ =~= framed(head));
        assert(inputs.pieces@.take(0) =~= Seq::<PieceDigest>::empty());
        assert(head + piece_fields(inputs.pieces@.take(0)) =~= head);
    }
    let mut i: usize = 0;
    while i < inputs.pieces.len()
        invariant
            i <= inputs.pieces@.len(),
            preimage@ == framed(head + piece_fields(inputs.pieces@.take(i as int))),
        decreases inputs.pieces.len() - i,
    {
        let piece = &inputs.pieces[i];
        let ghost before = head + piece_fields(inputs.pieces@.take(i as int));
        push_field(&mut preimage, piece.path.as_slice());
        push_field(&mut preimage, piece.content.as_slice());
        proof {
            let next = inputs.pieces@.take(i + 1);
            assert(next.drop_last() =~= inputs.pieces@.take(i as int));
            assert(next.last() == *piece);
            let after = head + piece_fields(next);
            assert(after =~= before.push(piece.path@).push(piece.content@));
            lemma_framed_push(before, piece.path@);
            lemma_framed_push(before.push(piece.path@), piece.content@);
            assert(preimage@ =~= framed(after));
        }
        i = i + 1;
    }
    proof {
        assert(inputs.pieces@.take(inputs.pieces@.len() as int) =~= inputs.pieces@);
    }
    sha256(preimage.as_slice())
}

/// Renders a digest as lowercase hexadecimal, two characters per byte.
pub fn hex(digest: &Vec<u8>) -> (r: String)
    ensures
        r@ == hex_of(digest@),
        r@.len() == 2 * digest@.len(),
{
    hex_string(digest.as_slice())
}

/// The stem both entry files share: `profile-`, the profile name, `-`, and
/// the first twelve hexadecimal characters of the digest.
pub open spec fn entry_stem(profile: Seq<char>, digest: Seq<u8>) -> Seq<char> {
    "profile-"@ + profile + "-"@ + hex_of(digest).take(SHORT as int)
}

/// Returns the settings and provenance paths for one digest.
pub fn entry_paths(composed: &Vec<u8>, profile: &Identifier, digest: &Vec<u8>) -> (r: (Vec<u8>, Vec<u8>))
    requires
        digest@.len() == 32,
    ensures
        r.0@ == join_text(composed@, entry_stem(profile@, digest@) + ".json"@),
        r.1@ == join_text(composed@, entry_stem(profile@, digest@) + ".compose.json"@),
{
    let full = chars_of(hex(digest).as_str());
    let mut short: Vec<char> = Vec::new();
    let mut i: usize = 0;
    while i < SHORT
        invariant
            i <= SHORT,
            full@ == hex_of(digest@),
            full@.len() == 64,
            short@ == full@.take(i as int),
        decreases SHORT - i,
    {
        short.push(full[i]);
        proof {
            assert(full@.take(i + 1) =~= full@.take(i as int).push(full@[i as int]));
        }
        i = i + 1;
    }
    let short_text = string_of(&short);
    let mut stem = owned("profile-");
    push_str(&mut stem, profile.as_str());
    push_str(&mut stem, "-");
    push_str(&mut stem, short_text.as_str());
    let mut settings = owned(stem.as_str());
    push_str(&mut settings, ".json");
    let mut provenance = owned(stem.as_str());
    push_str(&mut provenance, ".compose.json");
    (join(composed, settings.as_str()), join(composed, provenance.as_str()))
}

/// Framing the front field first gives the same bytes.
proof fn lemma_framed_front(f: Seq<u8>, rest: Seq<Seq<u8>>)
    ensures
        framed(seq![f] + rest) == frame(f) + framed(rest),
    decreases rest.len(),
{
    if rest.len() == 0 {
        let e = Seq::<Seq<u8>>::empty();
        assert(seq![f] + rest =~= e.push(f));
        lemma_framed_push(e, f);
        assert(frame(f) + framed(rest) =~= framed(e) + frame(f));
    } else {
        let whole = seq![f] + rest;
        let p = rest.drop_last();
        assert(whole =~= (seq![f] + p).push(rest.last()));
        assert(rest =~= p.push(rest.last()));
        lemma_framed_front(f, p);
        lemma_framed_push(seq![f] + p, rest.last());
        lemma_framed_push(p, rest.last());
        assert(framed(whole) =~= frame(f) + framed(rest));
    }
}

/// Eight big-endian bytes name one number.
proof fn lemma_be64_injective(a: u64, b: u64)
    requires
        be64(a) == be64(b),
    ensures
        a == b,
{
    assert(be64(a)[0] == be64(b)[0]);
    assert(be64(a)[1] == be64(b)[1]);
    assert(be64(a)[2] == be64(b)[2]);
    assert(be64(a)[3] == be64(b)[3]);
    assert(be64(a)[4] == be64(b)[4]);
    assert(be64(a)[5] == be64(b)[5]);
    assert(be64(a)[6] == be64(b)[6]);
    assert(be64(a)[7] == be64(b)[7]);
    assert(((a >> 56u64) as u8 == (b >> 56u64) as u8 && (a >> 48u64) as u8 == (b >> 48u64) as u8
        && (a >> 40u64) as u8 == (b >> 40u64) as u8 && (a >> 32u64) as u8 == (b >> 32u64) as u8
        && (a >> 24u64) as u8 == (b >> 24u64) as u8 && (a >> 16u64) as u8 == (b >> 16u64) as u8
        && (a >> 8u64) as u8 == (b >> 8u64) as u8 && a as u8 == b as u8) ==> a == b) by (bit_vector);
}

/// Framed fields are unambiguous: two lists of fields, each shorter than
/// 2^64 bytes, frame to the same bytes only when they are the same list.
/// Without the length prefix, fields whose concatenations agree would collide.
pub proof fn law_framing_is_unambiguous(a: Seq<Seq<u8>>, b: Seq<Seq<u8>>)
    requires
        forall|i: int| 0 <= i < a.len() ==> (#[trigger] a[i]).len() <= u64::MAX,
        forall|i: int| 0 <= i < b.len() ==> (#[trigger] b[i]).len() <= u64::MAX,
        framed(a) == framed(b),
    ensures
        a == b,
    decreases a.len() + b.len(),
{
    if a.len() == 0 && b.len() == 0 {
        assert(a =~= b);
    } else if a.len() == 0 {
        lemma_framed_front(b[0], b.skip(1));
        assert(seq![b[0]] + b.skip(1) =~= b);
        assert(framed(b).len() >= 8);
    } else if b.len() == 0 {
        lemma_framed_front(a[0], a.skip(1));
        assert(seq![a[0]] + a.skip(1) =~= a);
        assert(framed(a).len() >= 8);
    } else {
        let (fa, fb) = (a[0], b[0]);
        lemma_framed_front(fa, a.skip(1));
        lemma_framed_front(fb, b.skip(1));
        assert(seq![fa] + a.skip(1) =~= a);
        assert(seq![fb] + b.skip(1) =~= b);
        let ra = fa + framed(a.skip(1));
        let rb = fb + framed(b.skip(1));
        assert(framed(a) =~= be64(fa.len() as u64) + ra);
        assert(framed(b) =~= be64(fb.len() as u64) + rb);
        lemma_split_equal(be64(fa.len() as u64), ra, be64(fb.len() as u64), rb);
        lemma_be64_injective(fa.len() as u64, fb.len() as u64);
        lemma_split_equal(fa, framed(a.skip(1)), fb, framed(b.skip(1)));
        law_framing_is_unambiguous(a.skip(1), b.skip(1));
        assert(a =~= b);
    }
}

proof fn lemma_piece_fields_shape(ps: Seq<PieceDigest>)
    ensures
        piece_fields(ps).len() == 2 * ps.len(),
        forall|k: int| 0 <= k < ps.len() ==> piece_fields(ps)[2 * k] == (#[trigger] ps[k]).path@
            && piece_fields(ps)[2 * k + 1] == ps[k].content@,
    decreases ps.len(),
{
    if ps.len() > 0 {
        lemma_piece_fields_shape(ps.drop_last());
        assert forall|k: int| 0 <= k < ps.len() implies piece_fields(ps)[2 * k] == (#[trigger] ps[k]).path@
            && piece_fields(ps)[2 * k + 1] == ps[k].content@ by {
            if k < ps.len() - 1 {
                assert(ps.drop_last()[k] == ps[k]);
            }
        }
    }
}

/// Distinct inputs frame apart: two entries' preimages agree only when the
/// profile names, profile paths and contents, and the piece lists (paths and
/// contents, in order) all agree. Two profiles can therefore share an entry
/// only through a SHA-256 collision.
pub proof fn law_distinct_inputs_frame_apart(
    profile_a: Seq<char>, path_a: Seq<u8>, content_a: Seq<u8>, pieces_a: Seq<PieceDigest>,
    profile_b: Seq<char>, path_b: Seq<u8>, content_b: Seq<u8>, pieces_b: Seq<PieceDigest>,
)
    requires
        is_identifier(profile_a),
        is_identifier(profile_b),
        forall|i: int| 0 <= i < input_fields(profile_a, path_a, content_a, pieces_a).len()
            ==> (#[trigger] input_fields(profile_a, path_a, content_a, pieces_a)[i]).len() <= u64::MAX,
        forall|i: int| 0 <= i < input_fields(profile_b, path_b, content_b, pieces_b).len()
            ==> (#[trigger] input_fields(profile_b, path_b, content_b, pieces_b)[i]).len() <= u64::MAX,
        framed(input_fields(profile_a, path_a, content_a, pieces_a)) == framed(
            input_fields(profile_b, path_b, content_b, pieces_b),
        ),
    ensures
        profile_a == profile_b,
        path_a == path_b,
        content_a == content_b,
        piece_views(pieces_a) == piece_views(pieces_b),
{
    let fa = input_fields(profile_a, path_a, content_a, pieces_a);
    let fb = input_fields(profile_b, path_b, content_b, pieces_b);
    law_framing_is_unambiguous(fa, fb);
    assert(fa[1] == fb[1]);
    assert forall|i: int| 0 <= i < profile_a.len() implies (#[trigger] profile_a[i] as u32) < 0x80 by {
        if i > 0 {
            assert(is_tail_char(profile_a[i]));
        }
    }
    assert forall|i: int| 0 <= i < profile_b.len() implies (#[trigger] profile_b[i] as u32) < 0x80 by {
        if i > 0 {
            assert(is_tail_char(profile_b[i]));
        }
    }
    lemma_utf8_of_ascii(profile_a);
    lemma_utf8_of_ascii(profile_b);
    assert(fa[2] == fb[2]);
    assert(fa[3] == fb[3]);
    lemma_piece_fields_shape(pieces_a);
    lemma_piece_fields_shape(pieces_b);
    assert(fa.skip(4) =~= piece_fields(pieces_a));
    assert(fb.skip(4) =~= piece_fields(pieces_b));
    assert(pieces_a.len() == pieces_b.len());
    assert forall|k: int| 0 <= k < pieces_a.len() implies #[trigger] piece_views(pieces_a)[k] == piece_views(pieces_b)[k] by {
        assert(piece_fields(pieces_a)[2 * k] == piece_fields(pieces_b)[2 * k]);
        assert(piece_fields(pieces_a)[2 * k + 1] == piece_fields(pieces_b)[2 * k + 1]);
    }
    assert(piece_views(pieces_a) =~= piece_views(pieces_b));
}

} // verus!
