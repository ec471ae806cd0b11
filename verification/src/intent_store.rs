//! The persisted form of an anchor index.
//!
//! An index is written as a header and one record per anchor, all integers
//! little-endian:
//!
//! ```text
//! header:  magic (8 bytes) | dimension (8) | number of anchors (8)
//! record:  identifier (8) | importance (4) | components (4 each)
//!          | description | tags
//! text:    number of bytes (8) | UTF-8 bytes
//! ```
//!
//! Signed numbers are stored with an offset that makes them unsigned. Reading
//! accepts exactly what writing produces: any other bytes are refused.

use crate::errors::CoreError;
use crate::intent_engine::{distinct_ids, AnchorView, IntentAnchor, IntentEngine, MAX_DIMENSION};
use vstd::bytes::*;
use vstd::prelude::*;
use vstd::slice::*;
use vstd::string::*;
use vstd::utf8::*;

verus! {

/// The first eight bytes of a persisted index.
pub const MAGIC: u64 = 0x3158_4449_4f52_4550;

/// The unsigned code of an identifier.
pub open spec fn id_code(id: i64) -> u64 {
    (id + 0x8000_0000_0000_0000) as u64
}

/// The identifier with the code `code`.
pub open spec fn code_id(code: u64) -> i64 {
    (code - 0x8000_0000_0000_0000) as i64
}

/// The unsigned code of a vector component.
pub open spec fn component_code(c: i32) -> u32 {
    (c + 0x8000_0000) as u32
}

/// The vector component with the code `code`.
pub open spec fn code_component(code: u32) -> i32 {
    (code - 0x8000_0000) as i32
}

/// Reads eight bytes as a number; `None` where fewer are left.
pub open spec fn dec_u64(bytes: Seq<u8>) -> Option<(u64, Seq<u8>)> {
    if bytes.len() >= 8 {
        Some((spec_u64_from_le_bytes(bytes.take(8)), bytes.skip(8)))
    } else {
        None
    }
}

/// Reads four bytes as a number; `None` where fewer are left.
pub open spec fn dec_u32(bytes: Seq<u8>) -> Option<(u32, Seq<u8>)> {
    if bytes.len() >= 4 {
        Some((spec_u32_from_le_bytes(bytes.take(4)), bytes.skip(4)))
    } else {
        None
    }
}

/// The bytes of a vector's components.
pub open spec fn enc_components(v: Seq<i32>) -> Seq<u8>
    decreases v.len(),
{
    if v.len() == 0 {
        Seq::empty()
    } else {
        spec_u32_to_le_bytes(component_code(v[0])) + enc_components(v.drop_first())
    }
}

/// Reads `n` components.
pub open spec fn dec_components(bytes: Seq<u8>, n: nat) -> Option<(Seq<i32>, Seq<u8>)>
    decreases n,
{
    if n == 0 {
        Some((Seq::empty(), bytes))
    } else {
        match dec_u32(bytes) {
            None => None,
            Some((code, rest)) => match dec_components(rest, (n - 1) as nat) {
                None => None,
                Some((v, after)) => Some((seq![code_component(code)] + v, after)),
            },
        }
    }
}

/// The bytes of a text: the number of its UTF-8 bytes, then those bytes.
pub open spec fn enc_text(text: Seq<char>) -> Seq<u8> {
    spec_u64_to_le_bytes(encode_utf8(text).len() as u64) + encode_utf8(text)
}

/// Reads a text.
pub open spec fn dec_text(bytes: Seq<u8>) -> Option<(Seq<char>, Seq<u8>)> {
    match dec_u64(bytes) {
        None => None,
        Some((n, rest)) => if rest.len() >= n && valid_utf8(rest.take(n as int)) {
            Some((decode_utf8(rest.take(n as int)), rest.skip(n as int)))
        } else {
            None
        },
    }
}

/// The bytes of one anchor's record.
pub open spec fn enc_anchor(a: AnchorView) -> Seq<u8> {
    spec_u64_to_le_bytes(id_code(a.id)) + spec_u32_to_le_bytes(a.importance) + enc_components(
        a.vector,
    ) + enc_text(a.description) + enc_text(a.tags)
}

/// Reads one anchor's record with a vector of `dim` components.
pub open spec fn dec_anchor(bytes: Seq<u8>, dim: nat) -> Option<(AnchorView, Seq<u8>)> {
    match dec_u64(bytes) {
        None => None,
        Some((code, r1)) => match dec_u32(r1) {
            None => None,
            Some((importance, r2)) => match dec_components(r2, dim) {
                None => None,
                Some((vector, r3)) => match dec_text(r3) {
                    None => None,
                    Some((description, r4)) => match dec_text(r4) {
                        None => None,
                        Some((tags, r5)) => Some(
                            (
                                AnchorView {
                                    id: code_id(code),
                                    vector,
                                    description,
                                    importance,
                                    tags,
                                },
                                r5,
                            ),
                        ),
                    },
                },
            },
        },
    }
}

/// The records of a sequence of anchors, one after another.
pub open spec fn enc_anchors(anchors: Seq<AnchorView>) -> Seq<u8>
    decreases anchors.len(),
{
    if anchors.len() == 0 {
        Seq::empty()
    } else {
        enc_anchor(anchors[0]) + enc_anchors(anchors.drop_first())
    }
}

/// Reads `count` records.
pub open spec fn dec_anchors(bytes: Seq<u8>, dim: nat, count: nat) -> Option<
    (Seq<AnchorView>, Seq<u8>),
>
    decreases count,
{
    if count == 0 {
        Some((Seq::empty(), bytes))
    } else {
        match dec_anchor(bytes, dim) {
            None => None,
            Some((a, rest)) => match dec_anchors(rest, dim, (count - 1) as nat) {
                None => None,
                Some((list, after)) => Some((seq![a] + list, after)),
            },
        }
    }
}

/// The persisted form of the anchors of an index of dimension `dim`.
pub open spec fn encoded(anchors: Seq<AnchorView>, dim: nat) -> Seq<u8> {
    spec_u64_to_le_bytes(MAGIC) + spec_u64_to_le_bytes(dim as u64) + spec_u64_to_le_bytes(
        anchors.len() as u64,
    ) + enc_anchors(anchors)
}

/// The anchors that `bytes` hold for an index of dimension `dim`, or `None`
/// where `bytes` are not the persisted form of such an index: a wrong magic
/// number or dimension, a record that is cut short, a text that is not
/// UTF-8, an identifier that occurs twice, or bytes after the last record.
pub open spec fn decoded(bytes: Seq<u8>, dim: nat) -> Option<Seq<AnchorView>> {
    match dec_u64(bytes) {
        None => None,
        Some((magic, r1)) => match dec_u64(r1) {
            None => None,
            Some((stored_dim, r2)) => match dec_u64(r2) {
                None => None,
                Some((count, r3)) => if magic != MAGIC || stored_dim != dim {
                    None
                } else {
                    match dec_anchors(r3, dim, count as nat) {
                        None => None,
                        Some((anchors, rest)) => if rest.len() == 0 && distinct_ids(anchors) {
                            Some(anchors)
                        } else {
                            None
                        },
                    }
                },
            },
        },
    }
}

/// Whether the anchors fit the persisted form: their number and the UTF-8
/// length of each text fit in 64 bits. This holds of every index in memory.
pub open spec fn storable(anchors: Seq<AnchorView>) -> bool {
    &&& anchors.len() <= u64::MAX
    &&& forall|i: int|
        0 <= i < anchors.len() ==> encode_utf8((#[trigger] anchors[i]).description).len()
            <= u64::MAX && encode_utf8(anchors[i].tags).len() <= u64::MAX
}

/// Eight bytes that were written as a number are read back as that number.
pub proof fn lemma_u64_round_trip(x: u64, rest: Seq<u8>)
    ensures
        dec_u64(spec_u64_to_le_bytes(x) + rest) == Some((x, rest)),
{
    lemma_auto_spec_u64_to_from_le_bytes();
    let b = spec_u64_to_le_bytes(x);
    assert((b + rest).take(8) =~= b);
    assert((b + rest).skip(8) =~= rest);
}

/// Four bytes that were written as a number are read back as that number.
pub proof fn lemma_u32_round_trip(x: u32, rest: Seq<u8>)
    ensures
        dec_u32(spec_u32_to_le_bytes(x) + rest) == Some((x, rest)),
{
    lemma_auto_spec_u32_to_from_le_bytes();
    let b = spec_u32_to_le_bytes(x);
    assert((b + rest).take(4) =~= b);
    assert((b + rest).skip(4) =~= rest);
}

/// Components that were written are read back.
pub proof fn lemma_components_round_trip(v: Seq<i32>, rest: Seq<u8>)
    ensures
        dec_components(enc_components(v) + rest, v.len()) == Some((v, rest)),
    decreases v.len(),
{
    if v.len() == 0 {
        assert(enc_components(v) + rest =~= rest);
    } else {
        let head = spec_u32_to_le_bytes(component_code(v[0]));
        let tail = enc_components(v.drop_first());
        assert(enc_components(v) + rest =~= head + (tail + rest));
        lemma_u32_round_trip(component_code(v[0]), tail + rest);
        lemma_components_round_trip(v.drop_first(), rest);
        assert(seq![v[0]] + v.drop_first() =~= v);
    }
}

/// A text that was written is read back.
pub proof fn lemma_text_round_trip(text: Seq<char>, rest: Seq<u8>)
    requires
        encode_utf8(text).len() <= u64::MAX,
    ensures
        dec_text(enc_text(text) + rest) == Some((text, rest)),
{
    let b = encode_utf8(text);
    let n = b.len() as u64;
    assert(enc_text(text) + rest =~= spec_u64_to_le_bytes(n) + (b + rest));
    lemma_u64_round_trip(n, b + rest);
    assert((b + rest).take(n as int) =~= b);
    assert((b + rest).skip(n as int) =~= rest);
    encode_utf8_valid_utf8(text);
    encode_utf8_decode_utf8(text);
}

/// A record that was written is read back.
pub proof fn lemma_anchor_round_trip(a: AnchorView, rest: Seq<u8>)
    requires
        encode_utf8(a.description).len() <= u64::MAX,
        encode_utf8(a.tags).len() <= u64::MAX,
    ensures
        dec_anchor(enc_anchor(a) + rest, a.vector.len()) == Some((a, rest)),
{
    let b1 = spec_u64_to_le_bytes(id_code(a.id));
    let b2 = spec_u32_to_le_bytes(a.importance);
    let b3 = enc_components(a.vector);
    let b4 = enc_text(a.description);
    let b5 = enc_text(a.tags);
    assert(enc_anchor(a) + rest =~= b1 + (b2 + (b3 + (b4 + (b5 + rest)))));
    lemma_u64_round_trip(id_code(a.id), b2 + (b3 + (b4 + (b5 + rest))));
    lemma_u32_round_trip(a.importance, b3 + (b4 + (b5 + rest)));
    lemma_components_round_trip(a.vector, b4 + (b5 + rest));
    lemma_text_round_trip(a.description, b5 + rest);
    lemma_text_round_trip(a.tags, rest);
    assert(code_id(id_code(a.id)) == a.id);
}

/// Records that were written are read back.
pub proof fn lemma_anchors_round_trip(anchors: Seq<AnchorView>, dim: nat, rest: Seq<u8>)
    requires
        storable(anchors),
        forall|i: int| 0 <= i < anchors.len() ==> (#[trigger] anchors[i]).vector.len() == dim,
    ensures
        dec_anchors(enc_anchors(anchors) + rest, dim, anchors.len()) == Some((anchors, rest)),
    decreases anchors.len(),
{
    if anchors.len() == 0 {
        assert(enc_anchors(anchors) + rest =~= rest);
    } else {
        let tail = anchors.drop_first();
        assert(enc_anchors(anchors) + rest =~= enc_anchor(anchors[0]) + (enc_anchors(tail)
            + rest));
        assert(anchors[0].vector.len() == dim);
        lemma_anchor_round_trip(anchors[0], enc_anchors(tail) + rest);
        assert forall|i: int| 0 <= i < tail.len() implies (#[trigger] tail[i]).vector.len()
            == dim && encode_utf8(tail[i].description).len() <= u64::MAX && encode_utf8(
            tail[i].tags,
        ).len() <= u64::MAX by {
            assert(tail[i] == anchors[i + 1]);
        }
        lemma_anchors_round_trip(tail, dim, rest);
        assert(seq![anchors[0]] + tail =~= anchors);
    }
}

/// Saving and loading gives the anchors back: the persisted form of an index
/// is read as exactly the anchors that were written, in their order.
pub proof fn lemma_save_load_round_trip(anchors: Seq<AnchorView>, dim: nat)
    requires
        dim <= u64::MAX,
        storable(anchors),
        distinct_ids(anchors),
        forall|i: int| 0 <= i < anchors.len() ==> (#[trigger] anchors[i]).vector.len() == dim,
    ensures
        decoded(encoded(anchors, dim), dim) == Some(anchors),
{
    let b1 = spec_u64_to_le_bytes(MAGIC);
    let b2 = spec_u64_to_le_bytes(dim as u64);
    let b3 = spec_u64_to_le_bytes(anchors.len() as u64);
    let b4 = enc_anchors(anchors);
    assert(encoded(anchors, dim) =~= b1 + (b2 + (b3 + (b4 + Seq::<u8>::empty()))));
    lemma_u64_round_trip(MAGIC, b2 + (b3 + (b4 + Seq::<u8>::empty())));
    lemma_u64_round_trip(dim as u64, b3 + (b4 + Seq::<u8>::empty()));
    lemma_u64_round_trip(anchors.len() as u64, b4 + Seq::<u8>::empty());
    lemma_anchors_round_trip(anchors, dim, Seq::<u8>::empty());
}

/// One more component adds its four bytes.
pub proof fn lemma_components_push(v: Seq<i32>, c: i32)
    ensures
        enc_components(v.push(c)) == enc_components(v) + spec_u32_to_le_bytes(component_code(c)),
    decreases v.len(),
{
    if v.len() == 0 {
        assert(v.push(c).drop_first() =~= Seq::<i32>::empty());
        assert(enc_components(Seq::<i32>::empty()) =~= Seq::<u8>::empty());
        assert(enc_components(v.push(c)) =~= spec_u32_to_le_bytes(component_code(c))
            + Seq::<u8>::empty());
        assert(enc_components(v) + spec_u32_to_le_bytes(component_code(c))
            =~= spec_u32_to_le_bytes(component_code(c)));
    } else {
        assert(v.push(c).drop_first() =~= v.drop_first().push(c));
        lemma_components_push(v.drop_first(), c);
        assert(enc_components(v.push(c)) =~= enc_components(v) + spec_u32_to_le_bytes(
            component_code(c),
        ));
    }
}

/// One more anchor adds its record.
pub proof fn lemma_anchors_push(anchors: Seq<AnchorView>, a: AnchorView)
    ensures
        enc_anchors(anchors.push(a)) == enc_anchors(anchors) + enc_anchor(a),
    decreases anchors.len(),
{
    if anchors.len() == 0 {
        assert(anchors.push(a).drop_first() =~= Seq::<AnchorView>::empty());
        assert(enc_anchors(Seq::<AnchorView>::empty()) =~= Seq::<u8>::empty());
        assert(enc_anchors(anchors.push(a)) =~= enc_anchor(a) + Seq::<u8>::empty());
        assert(enc_anchors(anchors) + enc_anchor(a) =~= enc_anchor(a));
    } else {
        assert(anchors.push(a).drop_first() =~= anchors.drop_first().push(a));
        lemma_anchors_push(anchors.drop_first(), a);
        assert(enc_anchors(anchors.push(a)) =~= enc_anchors(anchors) + enc_anchor(a));
    }
}

/// `String::from_utf8`: the text that the bytes encode, or `None` where they
/// are not valid UTF-8.
#[verifier::external_body]
fn text_from_utf8(bytes: Vec<u8>) -> (text: Option<String>)
    ensures
        text is Some <==> valid_utf8(bytes@),
        text is Some ==> text->0@ == decode_utf8(bytes@),
{
    String::from_utf8(bytes).ok()
}

/// Appends `bytes` to `out`.
fn put(out: &mut Vec<u8>, bytes: &Vec<u8>)
    ensures
        final(out)@ == old(out)@ + bytes@,
{
    let mut i: usize = 0;
    while i < bytes.len()
        invariant
            i <= bytes@.len(),
            out@ == old(out)@ + bytes@.take(i as int),
        decreases bytes@.len() - i,
    {
        out.push(bytes[i]);
        proof {
            assert(out@ =~= old(out)@ + bytes@.take(i + 1));
        }
        i = i + 1;
    }
    proof {
        assert(bytes@.take(bytes@.len() as int) =~= bytes@);
    }
}

/// Appends a text.
fn put_text(out: &mut Vec<u8>, text: &String)
    ensures
        final(out)@ == old(out)@ + enc_text(text@),
        encode_utf8(text@).len() <= u64::MAX,
{
    let bytes = text.as_str().as_bytes_vec();
    let n = u64_to_le_bytes(bytes.len() as u64);
    put(out, &n);
    put(out, &bytes);
    proof {
        assert(out@ =~= old(out)@ + enc_text(text@));
    }
}

/// Appends the components of a vector.
fn put_components(out: &mut Vec<u8>, v: &Vec<i32>)
    ensures
        final(out)@ == old(out)@ + enc_components(v@),
{
    let mut i: usize = 0;
    while i < v.len()
        invariant
            i <= v@.len(),
            out@ == old(out)@ + enc_components(v@.take(i as int)),
        decreases v@.len() - i,
    {
        let code: u32 = (v[i] as i64 + 0x8000_0000) as u32;
        let b = u32_to_le_bytes(code);
        put(out, &b);
        proof {
            lemma_components_push(v@.take(i as int), v@[i as int]);
            assert(v@.take(i + 1) =~= v@.take(i as int).push(v@[i as int]));
            assert(out@ =~= old(out)@ + enc_components(v@.take(i + 1)));
        }
        i = i + 1;
    }
    proof {
        assert(v@.take(v@.len() as int) =~= v@);
    }
}

/// Appends the record of an anchor.
fn put_anchor(out: &mut Vec<u8>, anchor: &IntentAnchor)
    ensures
        final(out)@ == old(out)@ + enc_anchor(anchor@),
        encode_utf8(anchor@.description).len() <= u64::MAX,
        encode_utf8(anchor@.tags).len() <= u64::MAX,
{
    let code: u64 = (anchor.id as i128 + 0x8000_0000_0000_0000) as u64;
    let b1 = u64_to_le_bytes(code);
    put(out, &b1);
    let b2 = u32_to_le_bytes(anchor.importance);
    put(out, &b2);
    put_components(out, &anchor.vector);
    put_text(out, &anchor.description);
    put_text(out, &anchor.tags);
    proof {
        assert(out@ =~= old(out)@ + enc_anchor(anchor@));
    }
}

/// Reads a 64-bit number at `pos`. Returns it with the position behind it.
fn read_u64(bytes: &Vec<u8>, pos: usize) -> (read: Option<(u64, usize)>)
    requires
        pos <= bytes@.len(),
    ensures
        dec_u64(bytes@.skip(pos as int)) == (match read {
            Some((x, end)) => Some((x, bytes@.skip(end as int))),
            None => None,
        }),
        read is Some ==> read.unwrap().1 == pos + 8 && pos + 8 <= bytes@.len(),
{
    if bytes.len() - pos < 8 {
        return None;
    }
    let part = slice_subrange(bytes.as_slice(), pos, pos + 8);
    proof {
        assert(bytes@.skip(pos as int).take(8) =~= bytes@.subrange(pos as int, pos + 8));
        assert(bytes@.skip(pos as int).skip(8) =~= bytes@.skip(pos + 8));
    }
    Some((u64_from_le_bytes(part), pos + 8))
}

/// Reads a 32-bit number at `pos`. Returns it with the position behind it.
fn read_u32(bytes: &Vec<u8>, pos: usize) -> (read: Option<(u32, usize)>)
    requires
        pos <= bytes@.len(),
    ensures
        dec_u32(bytes@.skip(pos as int)) == (match read {
            Some((x, end)) => Some((x, bytes@.skip(end as int))),
            None => None,
        }),
        read is Some ==> read.unwrap().1 == pos + 4 && pos + 4 <= bytes@.len(),
{
    if bytes.len() - pos < 4 {
        return None;
    }
    let part = slice_subrange(bytes.as_slice(), pos, pos + 4);
    proof {
        assert(bytes@.skip(pos as int).take(4) =~= bytes@.subrange(pos as int, pos + 4));
        assert(bytes@.skip(pos as int).skip(4) =~= bytes@.skip(pos + 4));
    }
    Some((u32_from_le_bytes(part), pos + 4))
}

/// What a reader of components has to return at `pos`.
spec fn components_read(
    read: Option<(Vec<i32>, usize)>,
    bytes: Seq<u8>,
    pos: int,
    n: nat,
) -> bool {
    &&& dec_components(bytes.skip(pos), n) == (match read {
        Some((got, end)) => Some((got@, bytes.skip(end as int))),
        None => None,
    })
    &&& read is Some ==> pos <= read.unwrap().1 <= bytes.len()
}

/// What is left to read after `got`, as the whole reading would give it.
spec fn components_left(got: Seq<i32>, bytes: Seq<u8>, pos: int, left: nat) -> Option<
    (Seq<i32>, Seq<u8>),
> {
    match dec_components(bytes.skip(pos), left) {
        None => None,
        Some((v, rest)) => Some((got + v, rest)),
    }
}

/// Reads `n` components at `pos`.
fn read_components(bytes: &Vec<u8>, pos: usize, n: usize) -> (read: Option<(Vec<i32>, usize)>)
    requires
        pos <= bytes@.len(),
    ensures
        components_read(read, bytes@, pos as int, n as nat),
{
    let mut got: Vec<i32> = Vec::new();
    let mut at: usize = pos;
    let mut i: usize = 0;
    proof {
        let whole = dec_components(bytes@.skip(pos as int), n as nat);
        if whole is Some {
            assert(Seq::<i32>::empty() + whole.unwrap().0 =~= whole.unwrap().0);
        }
    }
    while i < n
        invariant
            i <= n,
            pos <= at <= bytes@.len(),
            dec_components(bytes@.skip(pos as int), n as nat) == components_left(
                got@,
                bytes@,
                at as int,
                (n - i) as nat,
            ),
        decreases n - i,
    {
        let ghost before = got@;
        match read_u32(bytes, at) {
            None => {
                return None;
            },
            Some((code, next)) => {
                got.push((code as i64 - 0x8000_0000) as i32);
                proof {
                    let later = dec_components(bytes@.skip(next as int), (n - i - 1) as nat);
                    if later is Some {
                        assert(before + (seq![code_component(code)] + later.unwrap().0) =~= got@
                            + later.unwrap().0);
                    }
                }
                at = next;
            },
        }
        i = i + 1;
    }
    proof {
        assert(got@ + Seq::<i32>::empty() =~= got@);
    }
    Some((got, at))
}

/// What a reader of a text has to return at `pos`.
spec fn text_read(read: Option<(String, usize)>, bytes: Seq<u8>, pos: int) -> bool {
    &&& dec_text(bytes.skip(pos)) == (match read {
        Some((got, end)) => Some((got@, bytes.skip(end as int))),
        None => None,
    })
    &&& read is Some ==> pos <= read.unwrap().1 <= bytes.len()
}

/// Reads a text at `pos`.
fn read_text(bytes: &Vec<u8>, pos: usize) -> (read: Option<(String, usize)>)
    requires
        pos <= bytes@.len(),
    ensures
        text_read(read, bytes@, pos as int),
{
    match read_u64(bytes, pos) {
        None => None,
        Some((n, start)) => {
            if n > (bytes.len() - start) as u64 {
                return None;
            }
            let end = start + n as usize;
            let part = slice_to_vec(slice_subrange(bytes.as_slice(), start, end));
            proof {
                assert(bytes@.skip(start as int).take(n as int) =~= bytes@.subrange(
                    start as int,
                    end as int,
                ));
                assert(bytes@.skip(start as int).skip(n as int) =~= bytes@.skip(end as int));
            }
            match text_from_utf8(part) {
                None => None,
                Some(text) => Some((text, end)),
            }
        },
    }
}

/// What a reader of a record has to return at `pos`.
spec fn anchor_read(read: Option<(IntentAnchor, usize)>, bytes: Seq<u8>, pos: int, dim: nat) -> bool {
    &&& dec_anchor(bytes.skip(pos), dim) == (match read {
        Some((got, end)) => Some((got@, bytes.skip(end as int))),
        None => None,
    })
    &&& read is Some ==> pos <= read.unwrap().1 <= bytes.len()
}

/// Reads the record of an anchor at `pos`.
fn read_anchor(bytes: &Vec<u8>, pos: usize, dim: usize) -> (read: Option<(IntentAnchor, usize)>)
    requires
        pos <= bytes@.len(),
    ensures
        anchor_read(read, bytes@, pos as int, dim as nat),
{
    let (code, at_importance) = match read_u64(bytes, pos) {
        None => {
            return None;
        },
        Some(r) => r,
    };
    let (importance, at_vector) = match read_u32(bytes, at_importance) {
        None => {
            return None;
        },
        Some(r) => r,
    };
    let (vector, at_description) = match read_components(bytes, at_vector, dim) {
        None => {
            return None;
        },
        Some(r) => r,
    };
    let (description, at_tags) = match read_text(bytes, at_description) {
        None => {
            return None;
        },
        Some(r) => r,
    };
    let (tags, end) = match read_text(bytes, at_tags) {
        None => {
            return None;
        },
        Some(r) => r,
    };
    let id = (code as i128 - 0x8000_0000_0000_0000) as i64;
    Some((IntentAnchor { id, vector, description, importance, tags }, end))
}

/// What reading makes of the records once they are read: they must reach the
/// end of the bytes, and no identifier may occur twice.
spec fn finished(records: Option<(Seq<AnchorView>, Seq<u8>)>) -> Option<Seq<AnchorView>> {
    match records {
        None => None,
        Some((anchors, rest)) => if rest.len() == 0 && distinct_ids(anchors) {
            Some(anchors)
        } else {
            None
        },
    }
}

/// What is left to read after `got`, as the whole reading would give it.
spec fn anchors_left(got: Seq<AnchorView>, bytes: Seq<u8>, pos: int, dim: nat, left: nat) -> Option<
    (Seq<AnchorView>, Seq<u8>),
> {
    match dec_anchors(bytes.skip(pos), dim, left) {
        None => None,
        Some((list, rest)) => Some((got + list, rest)),
    }
}

impl IntentEngine {
    /// The persisted form of this index.
    pub fn to_bytes(&self) -> (bytes: Vec<u8>)
        requires
            self.wf(),
        ensures
            bytes@ == encoded(self.anchors(), self.dim()),
            storable(self.anchors()),
    {
        let mut out: Vec<u8> = Vec::new();
        let n = self.size();
        let b1 = u64_to_le_bytes(MAGIC);
        put(&mut out, &b1);
        let b2 = u64_to_le_bytes(self.dimension() as u64);
        put(&mut out, &b2);
        let b3 = u64_to_le_bytes(n as u64);
        put(&mut out, &b3);
        let ghost header = out@;
        let mut i: usize = 0;
        proof {
            assert(self.anchors().take(0) =~= Seq::<AnchorView>::empty());
            assert(out@ =~= header + enc_anchors(self.anchors().take(0)));
        }
        while i < n
            invariant
                n == self.anchors().len(),
                i <= n,
                out@ == header + enc_anchors(self.anchors().take(i as int)),
                forall|j: int|
                    0 <= j < i ==> encode_utf8((#[trigger] self.anchors()[j]).description).len()
                        <= u64::MAX && encode_utf8(self.anchors()[j].tags).len() <= u64::MAX,
            decreases n - i,
        {
            let anchor = self.anchor(i);
            put_anchor(&mut out, anchor);
            proof {
                let done = self.anchors().take(i as int);
                lemma_anchors_push(done, anchor@);
                assert(self.anchors().take(i + 1) =~= done.push(anchor@));
                assert(out@ =~= header + enc_anchors(self.anchors().take(i + 1)));
            }
            i = i + 1;
        }
        proof {
            assert(self.anchors().take(n as int) =~= self.anchors());
            assert(header =~= spec_u64_to_le_bytes(MAGIC) + spec_u64_to_le_bytes(
                self.dim() as u64,
            ) + spec_u64_to_le_bytes(self.anchors().len() as u64));
            assert(out@ =~= encoded(self.anchors(), self.dim()));
        }
        out
    }

    /// Reads the persisted form of an index of dimension `dim`. Bytes that
    /// are not the persisted form of such an index are refused.
    pub fn from_bytes(bytes: &Vec<u8>, dim: usize) -> (loaded: Result<IntentEngine, CoreError>)
        ensures
            loaded is Ok <==> (0 < dim <= MAX_DIMENSION && decoded(bytes@, dim as nat) is Some),
            loaded is Err ==> loaded->Err_0 == (if 0 < dim <= MAX_DIMENSION {
                CoreError::IndexIOError
            } else {
                CoreError::BadInputSize
            }),
            loaded is Ok ==> loaded->Ok_0.wf() && loaded->Ok_0.dim() == dim
                && loaded->Ok_0.anchors() == decoded(bytes@, dim as nat)->0,
    {
        let mut engine = match IntentEngine::new(dim) {
            Err(e) => {
                return Err(e);
            },
            Ok(engine) => engine,
        };
        proof {
            assert(bytes@.skip(0) =~= bytes@);
        }
        let (magic, at_dim) = match read_u64(bytes, 0) {
            None => {
                return Err(CoreError::IndexIOError);
            },
            Some(r) => r,
        };
        let (stored_dim, at_count) = match read_u64(bytes, at_dim) {
            None => {
                return Err(CoreError::IndexIOError);
            },
            Some(r) => r,
        };
        let (count, start) = match read_u64(bytes, at_count) {
            None => {
                return Err(CoreError::IndexIOError);
            },
            Some(r) => r,
        };
        if magic != MAGIC || stored_dim != dim as u64 {
            return Err(CoreError::IndexIOError);
        }
        let ghost whole = dec_anchors(bytes@.skip(start as int), dim as nat, count as nat);
        let mut at: usize = start;
        let mut i: u64 = 0;
        proof {
            if whole is Some {
                assert(Seq::<AnchorView>::empty() + whole.unwrap().0 =~= whole.unwrap().0);
            }
            assert(decoded(bytes@, dim as nat) == finished(whole));
        }
        while i < count
            invariant
                i <= count,
                decoded(bytes@, dim as nat) == finished(whole),
                start <= at <= bytes@.len(),
                engine.wf(),
                engine.dim() == dim,
                whole == dec_anchors(bytes@.skip(start as int), dim as nat, count as nat),
                whole == anchors_left(
                    engine.anchors(),
                    bytes@,
                    at as int,
                    dim as nat,
                    (count - i) as nat,
                ),
            decreases count - i,
        {
            let ghost before = engine.anchors();
            match read_anchor(bytes, at, dim) {
                None => {
                    return Err(CoreError::IndexIOError);
                },
                Some((anchor, next)) => {
                    let ghost a = anchor@;
                    let ghost later = dec_anchors(
                        bytes@.skip(next as int),
                        dim as nat,
                        (count - i - 1) as nat,
                    );
                    proof {
                        if later is Some {
                            assert(before + (seq![a] + later.unwrap().0) =~= before.push(a)
                                + later.unwrap().0);
                        }
                    }
                    if engine.find(anchor.id).is_some() {
                        proof {
                            if later is Some {
                                let list = before.push(a) + later.unwrap().0;
                                let first = crate::intent_engine::position_of_id(before, a.id);
                                assert(list[first].id == a.id);
                                assert(list[before.len() as int].id == a.id);
                                assert(!distinct_ids(list));
                            }
                        }
                        return Err(CoreError::IndexIOError);
                    }
                    proof {
                        crate::intent_store::lemma_components_length(
                            bytes@.skip(at as int),
                            dim as nat,
                        );
                    }
                    let added = engine.add_anchor(anchor);
                    at = next;
                },
            }
            i = i + 1;
        }
        proof {
            assert(engine.anchors() + Seq::<AnchorView>::empty() =~= engine.anchors());
        }
        if at != bytes.len() {
            return Err(CoreError::IndexIOError);
        }
        Ok(engine)
    }
}

/// A search in an index that was loaded from the persisted form of another
/// finds what the search in that other index finds, for every query and
/// every number of matches asked for.
pub proof fn lemma_round_trip_preserves_search(
    saved: &IntentEngine,
    loaded: &IntentEngine,
    query: Seq<i32>,
    k: nat,
)
    requires
        saved.wf(),
        storable(saved.anchors()),
        decoded(encoded(saved.anchors(), saved.dim()), saved.dim()) == Some(loaded.anchors()),
    ensures
        loaded.anchors() == saved.anchors(),
        crate::intent_engine::best_matches(loaded.anchors(), query, k)
            == crate::intent_engine::best_matches(saved.anchors(), query, k),
{
    lemma_save_load_round_trip(saved.anchors(), saved.dim());
}

/// A record that is read has a vector of `dim` components.
pub proof fn lemma_components_length(bytes: Seq<u8>, dim: nat)
    ensures
        dec_anchor(bytes, dim) is Some ==> dec_anchor(bytes, dim).unwrap().0.vector.len() == dim,
{
    if dec_anchor(bytes, dim) is Some {
        let r2 = dec_u32(dec_u64(bytes).unwrap().1).unwrap().1;
        lemma_read_components_length(r2, dim);
    }
}

/// Components that are read are as many as were asked for.
pub proof fn lemma_read_components_length(bytes: Seq<u8>, n: nat)
    ensures
        dec_components(bytes, n) is Some ==> dec_components(bytes, n).unwrap().0.len() == n,
    decreases n,
{
    if n > 0 && dec_u32(bytes) is Some {
        lemma_read_components_length(dec_u32(bytes).unwrap().1, (n - 1) as nat);
    }
}

} // verus!
