//! Wire format of the log topic.
//!
//! Every message on the shared topic carries a key that encodes the store
//! name and the entry key, and a payload that encodes the value. Both sides
//! use length-prefixed framing: a four-byte little-endian length header
//! followed by that many bytes. The decoders accept exactly the encoders'
//! images; anything else is rejected without being applied.

use vstd::prelude::*;

verus! {

use crate::error::DecodeError;
use crate::metadata::{
    ClusterMetadata, ClusterMetadataView, TopicMetadata, TopicMetadataView, Value, ValueView,
};

/// Little-endian byte image of a 32-bit length header.
pub open spec fn u32_le_bytes(n: u32) -> Seq<u8> {
    seq![
        (n % 256) as u8,
        ((n / 256) % 256) as u8,
        ((n / 65536) % 256) as u8,
        ((n / 16777216) % 256) as u8,
    ]
}

/// The 32-bit value read back from four little-endian bytes.
pub open spec fn u32_from_le(b0: u8, b1: u8, b2: u8, b3: u8) -> u32 {
    (b0 + b1 * 256 + b2 * 65536 + b3 * 16777216) as u32
}

/// Reading the four bytes of a length header yields the header's value.
pub proof fn lemma_u32_le_round_trip(n: u32)
    ensures
        u32_from_le(
            u32_le_bytes(n)[0],
            u32_le_bytes(n)[1],
            u32_le_bytes(n)[2],
            u32_le_bytes(n)[3],
        ) == n,
{
    assert(n % 256 + (n / 256) % 256 * 256 + (n / 65536) % 256 * 65536 + (n / 16777216) % 256
        * 16777216 == n) by (nonlinear_arith);
}

/// Appends the little-endian image of `n` to `out`.
pub fn encode_u32(out: &mut Vec<u8>, n: u32)
    ensures
        final(out)@ == old(out)@ + u32_le_bytes(n),
{
    out.push((n % 256) as u8);
    out.push((n / 256 % 256) as u8);
    out.push((n / 65536 % 256) as u8);
    out.push((n / 16777216 % 256) as u8);
    assert(out@ =~= old(out)@ + u32_le_bytes(n));
}

/// The header value at `pos`, when four bytes are available there.
#[verifier::opaque]
pub open spec fn spec_read_u32(b: Seq<u8>, pos: int) -> u32
    recommends
        0 <= pos,
        pos + 4 <= b.len(),
{
    u32_from_le(b[pos], b[pos + 1], b[pos + 2], b[pos + 3])
}

/// Reads the length header at `pos`.
pub fn read_u32(buf: &[u8], pos: usize) -> (r: u32)
    requires
        pos + 4 <= buf@.len(),
    ensures
        r == spec_read_u32(buf@, pos as int),
{
    proof {
        reveal(spec_read_u32);
    }
    let b0 = buf[pos] as u32;
    let b1 = buf[pos + 1] as u32;
    let b2 = buf[pos + 2] as u32;
    let b3 = buf[pos + 3] as u32;
    b0 + b1 * 256 + b2 * 65536 + b3 * 16777216
}

/// A length-prefixed frame: four header bytes, then the content.
pub open spec fn framed(b: Seq<u8>) -> Seq<u8>
    recommends
        b.len() <= u32::MAX,
{
    u32_le_bytes(b.len() as u32) + b
}

/// Appends the frame of `b` to `out`.
pub fn push_frame(out: &mut Vec<u8>, b: &[u8])
    requires
        b@.len() <= u32::MAX,
    ensures
        final(out)@ == old(out)@ + framed(b@),
{
    encode_u32(out, b.len() as u32);
    let ghost mid = out@;
    let mut i: usize = 0;
    while i < b.len()
        invariant
            i <= b@.len(),
            out@ == mid + b@.subrange(0, i as int),
        decreases b@.len() - i,
    {
        out.push(b[i]);
        i = i + 1;
        assert(out@ =~= mid + b@.subrange(0, i as int));
    }
    assert(out@ =~= old(out)@ + framed(b@));
}

/// Parses the frame starting at `pos`: its content and the position just
/// after it. `None` when the buffer is too short for the header or the
/// declared content.
pub open spec fn take_frame(b: Seq<u8>, pos: int) -> Option<(Seq<u8>, int)> {
    if 0 <= pos && pos + 4 <= b.len() {
        let n = spec_read_u32(b, pos) as int;
        if pos + 4 + n <= b.len() {
            Some((b.subrange(pos + 4, pos + 4 + n), pos + 4 + n))
        } else {
            None
        }
    } else {
        None
    }
}

/// Reads the frame at `pos`, returning its content and the position after it.
pub fn read_frame(buf: &[u8], pos: usize) -> (r: Result<(Vec<u8>, usize), DecodeError>)
    requires
        pos <= buf@.len(),
    ensures
        match r {
            Ok(p) => take_frame(buf@, pos as int) == Some((p.0@, p.1 as int)) && pos < p.1
                <= buf@.len(),
            Err(e) => take_frame(buf@, pos as int) is None && e == DecodeError::Truncated,
        },
{
    if buf.len() - pos < 4 {
        return Err(DecodeError::Truncated);
    }
    let n = read_u32(buf, pos);
    if (n as usize) > buf.len() - pos - 4 {
        return Err(DecodeError::Truncated);
    }
    let n = n as usize;
    let start = pos + 4;
    let mut content: Vec<u8> = Vec::new();
    let mut i: usize = 0;
    while i < n
        invariant
            i <= n,
            start + n <= usize::MAX,
            start + n <= buf@.len(),
            content@ == buf@.subrange(start as int, start + i as int),
        decreases n - i,
    {
        content.push(buf[start + i]);
        i = i + 1;
        assert(content@ =~= buf@.subrange(start as int, start + i as int));
    }
    Ok((content, start + n))
}

/// A frame placed after `prefix` parses back to its content, leaving the
/// cursor at the suffix.
pub proof fn lemma_take_frame_encoding(b: Seq<u8>, prefix: Seq<u8>, content: Seq<u8>)
    requires
        content.len() <= u32::MAX,
        prefix.len() + framed(content).len() <= b.len(),
        b.subrange(prefix.len() as int, prefix.len() + framed(content).len() as int) == framed(content),
    ensures
        take_frame(b, prefix.len() as int) == Some(
            (content, prefix.len() + 4 + content.len() as int),
        ),
{
    reveal(spec_read_u32);
    let pos = prefix.len() as int;
    let fr = framed(content);
    let sub = b.subrange(pos, pos + fr.len() as int);
    assert(fr.len() == 4 + content.len());
    assert forall|i: int| 0 <= i < fr.len() implies b[pos + i] == fr[i] by {
        assert(sub[i] == b[pos + i]);
    }
    lemma_u32_le_round_trip(content.len() as u32);
    assert(fr[0] == u32_le_bytes(content.len() as u32)[0]);
    assert(fr[1] == u32_le_bytes(content.len() as u32)[1]);
    assert(fr[2] == u32_le_bytes(content.len() as u32)[2]);
    assert(fr[3] == u32_le_bytes(content.len() as u32)[3]);
    assert(spec_read_u32(b, pos) == content.len() as u32);
    let n = content.len() as int;
    assert forall|j: int| 0 <= j < n implies b[pos + 4 + j] == content[j] by {
        assert(b[pos + (4 + j)] == fr[4 + j]);
        assert(fr[4 + j] == content[j]);
    }
    assert(b.subrange(pos + 4, pos + 4 + n) =~= content);
}

/// Splitting a known concatenation: when the bytes at `pos` are `s1 + s2`,
/// the two halves stand at `pos` and `pos + s1.len()`.
pub proof fn lemma_subrange_split(b: Seq<u8>, pos: int, s1: Seq<u8>, s2: Seq<u8>)
    requires
        0 <= pos,
        pos + s1.len() + s2.len() <= b.len(),
        b.subrange(pos, pos + s1.len() + s2.len()) == s1 + s2,
    ensures
        b.subrange(pos, pos + s1.len() as int) == s1,
        b.subrange(pos + s1.len() as int, pos + s1.len() + s2.len()) == s2,
{
    let s12 = s1 + s2;
    let n1 = s1.len() as int;
    let n2 = s2.len() as int;
    assert forall|i: int| 0 <= i < n1 + n2 implies b[pos + i] == s12[i] by {
        assert(b.subrange(pos, pos + n1 + n2)[i] == b[pos + i]);
    }
    assert forall|j: int| 0 <= j < n1 implies b.subrange(pos, pos + n1)[j] == s1[j] by {
        assert(b[pos + j] == s12[j]);
    }
    assert(b.subrange(pos, pos + n1) =~= s1);
    assert forall|j: int| 0 <= j < n2 implies b.subrange(pos + n1, pos + n1 + n2)[j] == s2[j] by {
        assert(b[pos + (n1 + j)] == s12[n1 + j]);
        assert(b.subrange(pos + n1, pos + n1 + n2)[j] == b[(pos + n1) + j]);
        assert(s12[n1 + j] == s2[j]);
    }
    assert(b.subrange(pos + n1, pos + n1 + n2) =~= s2);
}

/// Parses the length header at `pos`: its value and the position after it.
pub open spec fn take_u32(b: Seq<u8>, pos: int) -> Option<(u32, int)> {
    if 0 <= pos && pos + 4 <= b.len() {
        Some((spec_read_u32(b, pos), pos + 4))
    } else {
        None
    }
}

/// Reads the length header at `pos` with a bounds check.
pub fn read_u32_checked(buf: &[u8], pos: usize) -> (r: Result<(u32, usize), DecodeError>)
    requires
        pos <= buf@.len(),
    ensures
        match r {
            Ok(p) => take_u32(buf@, pos as int) == Some((p.0, p.1 as int)) && pos < p.1
                <= buf@.len(),
            Err(e) => take_u32(buf@, pos as int) is None && e == DecodeError::Truncated,
        },
{
    if buf.len() - pos < 4 {
        return Err(DecodeError::Truncated);
    }
    Ok((read_u32(buf, pos), pos + 4))
}

/// A header placed after `prefix` parses back to its value.
pub proof fn lemma_take_u32_encoding(b: Seq<u8>, prefix: Seq<u8>, n: u32)
    requires
        prefix.len() + 4 <= b.len(),
        b.subrange(prefix.len() as int, prefix.len() + 4 as int) == u32_le_bytes(n),
    ensures
        take_u32(b, prefix.len() as int) == Some((n, prefix.len() + 4 as int)),
{
    reveal(spec_read_u32);
    let pos = prefix.len() as int;
    let e = u32_le_bytes(n);
    assert forall|i: int| 0 <= i < 4 implies b[pos + i] == e[i] by {
        assert(b.subrange(pos, pos + 4)[i] == b[pos + i]);
    }
    lemma_u32_le_round_trip(n);
}

// ------------------------------------------------------------------
// Message keys: the store name and the entry key, one frame each.
// ------------------------------------------------------------------

/// Wire image of a message key: the store-name frame, then the key frame.
pub open spec fn key_encoding(store: Seq<u8>, key: Seq<u8>) -> Seq<u8>
    recommends
        store.len() <= u32::MAX,
        key.len() <= u32::MAX,
{
    framed(store) + framed(key)
}

/// Encodes the message key that names `(store, key)` on the log topic.
pub fn encode_entry_key(store: &Vec<u8>, key: &Vec<u8>) -> (r: Vec<u8>)
    requires
        store@.len() <= u32::MAX,
        key@.len() <= u32::MAX,
    ensures
        r@ == key_encoding(store@, key@),
{
    let mut out: Vec<u8> = Vec::new();
    push_frame(&mut out, store.as_slice());
    push_frame(&mut out, key.as_slice());
    assert(out@ =~= key_encoding(store@, key@));
    out
}

/// Parses a message key: exactly two frames, nothing after them.
pub open spec fn decode_key_spec(b: Seq<u8>) -> Result<(Seq<u8>, Seq<u8>), DecodeError> {
    match take_frame(b, 0) {
        Option::None => Err(DecodeError::Truncated),
        Option::Some((store, p)) => match take_frame(b, p) {
            Option::None => Err(DecodeError::Truncated),
            Option::Some((key, end)) => if end == b.len() {
                Ok((store, key))
            } else {
                Err(DecodeError::TrailingBytes)
            },
        },
    }
}

/// Ghost image of a decoded message key.
pub open spec fn key_result_view(r: Result<(Vec<u8>, Vec<u8>), DecodeError>) -> Result<
    (Seq<u8>, Seq<u8>),
    DecodeError,
> {
    match r {
        Ok(p) => Ok((p.0@, p.1@)),
        Err(e) => Err(e),
    }
}

/// Decodes a message key back into its store name and entry key.
pub fn decode_entry_key(buf: &Vec<u8>) -> (r: Result<(Vec<u8>, Vec<u8>), DecodeError>)
    ensures
        key_result_view(r) == decode_key_spec(buf@),
{
    let (store, p) = match read_frame(buf.as_slice(), 0) {
        Ok(p) => p,
        Err(e) => {
            return Err(e);
        },
    };
    let (key, end) = match read_frame(buf.as_slice(), p) {
        Ok(p) => p,
        Err(e) => {
            return Err(e);
        },
    };
    if end != buf.len() {
        return Err(DecodeError::TrailingBytes);
    }
    Ok((store, key))
}

/// An encoded message key decodes to the store name and key it was made from.
pub proof fn lemma_key_round_trip(store: Seq<u8>, key: Seq<u8>)
    requires
        store.len() <= u32::MAX,
        key.len() <= u32::MAX,
    ensures
        decode_key_spec(key_encoding(store, key)) == Ok::<_, DecodeError>((store, key)),
{
    let b = key_encoding(store, key);
    let f1 = framed(store);
    let f2 = framed(key);
    assert(b == f1 + f2);
    assert(b.subrange(0, (f1.len() + f2.len()) as int) == f1 + f2) by {
        assert((f1 + f2).subrange(0, (f1.len() + f2.len()) as int) =~= f1 + f2);
    }
    assert(b.subrange(0, f1.len() as int) == f1 && b.subrange(
        f1.len() as int,
        (f1.len() + f2.len()) as int,
    ) == f2) by {
        lemma_subrange_split(b, 0, f1, f2);
    }
    assert(take_frame(b, 0) == Some((store, 4 + store.len() as int))) by {
        lemma_take_frame_encoding(b, Seq::<u8>::empty(), store);
    }
    assert(take_frame(b, 4 + store.len() as int) == Some((key, b.len() as int))) by {
        assert(f1.len() == 4 + store.len());
        lemma_take_frame_encoding(b, f1, key);
    }
    assert(decode_key_spec(b) == Ok::<_, DecodeError>((store, key)));
}

// ------------------------------------------------------------------
// Lists of byte strings (broker addresses).
// ------------------------------------------------------------------

/// Every element short enough for a four-byte length header.
pub open spec fn wf_bytes_list(items: Seq<Seq<u8>>) -> bool {
    forall|i: int| 0 <= i < items.len() ==> (#[trigger] items[i]).len() <= u32::MAX
}

/// Wire image of a list of byte strings: one frame per element.
pub open spec fn encode_bytes_list(items: Seq<Seq<u8>>) -> Seq<u8>
    decreases items.len(),
{
    if items.len() == 0 {
        Seq::empty()
    } else {
        framed(items[0]) + encode_bytes_list(items.drop_first())
    }
}

/// Appending one element appends one frame.
pub proof fn lemma_encode_bytes_list_push(items: Seq<Seq<u8>>, x: Seq<u8>)
    ensures
        encode_bytes_list(items.push(x)) == encode_bytes_list(items) + framed(x),
    decreases items.len(),
{
    assert(items.push(x)[0] == if items.len() == 0 { x } else { items[0] });
    if items.len() == 0 {
        assert(items.push(x).drop_first() =~= Seq::<Seq<u8>>::empty());
        assert(encode_bytes_list(Seq::<Seq<u8>>::empty()) == Seq::<u8>::empty());
        assert(encode_bytes_list(items.push(x)) == framed(x) + Seq::<u8>::empty());
        assert(encode_bytes_list(items.push(x)) =~= encode_bytes_list(items) + framed(x));
    } else {
        assert(items.push(x).drop_first() =~= items.drop_first().push(x));
        lemma_encode_bytes_list_push(items.drop_first(), x);
        assert(encode_bytes_list(items.push(x)) == framed(items[0]) + (encode_bytes_list(
            items.drop_first(),
        ) + framed(x)));
        assert(encode_bytes_list(items.push(x)) =~= encode_bytes_list(items) + framed(x));
    }
}

/// Ghost image of a vector of byte vectors.
pub open spec fn bytes_list_view(items: Seq<Vec<u8>>) -> Seq<Seq<u8>> {
    Seq::new(items.len(), |i: int| items[i]@)
}

/// Appends one frame per element of `items` to `out`.
pub fn push_bytes_list(out: &mut Vec<u8>, items: &Vec<Vec<u8>>)
    requires
        wf_bytes_list(bytes_list_view(items@)),
    ensures
        final(out)@ == old(out)@ + encode_bytes_list(bytes_list_view(items@)),
{
    let ghost base = out@;
    let ghost view = bytes_list_view(items@);
    let mut i: usize = 0;
    while i < items.len()
        invariant
            i <= items@.len(),
            view == bytes_list_view(items@),
            wf_bytes_list(view),
            out@ == base + encode_bytes_list(view.subrange(0, i as int)),
        decreases items@.len() - i,
    {
        assert(view.subrange(0, i + 1) =~= view.subrange(0, i as int).push(view[i as int]));
        proof {
            lemma_encode_bytes_list_push(view.subrange(0, i as int), view[i as int]);
        }
        push_frame(out, items[i].as_slice());
        i = i + 1;
        assert(out@ =~= base + encode_bytes_list(view.subrange(0, i as int)));
    }
    assert(view.subrange(0, items@.len() as int) =~= view);
}

/// Parses `n` consecutive frames starting at `pos`.
pub open spec fn take_bytes_list(b: Seq<u8>, pos: int, n: nat) -> Option<(Seq<Seq<u8>>, int)>
    decreases n,
{
    if n == 0 {
        Some((Seq::empty(), pos))
    } else {
        match take_frame(b, pos) {
            Option::None => None,
            Option::Some((x, p)) => match take_bytes_list(b, p, (n - 1) as nat) {
                Option::None => None,
                Option::Some((xs, end)) => Some((seq![x] + xs, end)),
            },
        }
    }
}

/// Reads `n` consecutive frames starting at `pos`.
pub fn read_bytes_list(buf: &[u8], pos: usize, n: u32) -> (r: Result<
    (Vec<Vec<u8>>, usize),
    DecodeError,
>)
    requires
        pos <= buf@.len(),
    ensures
        match r {
            Ok(p) => take_bytes_list(buf@, pos as int, n as nat) == Some(
                (bytes_list_view(p.0@), p.1 as int),
            ) && pos <= p.1 <= buf@.len(),
            Err(e) => take_bytes_list(buf@, pos as int, n as nat) is None && e
                == DecodeError::Truncated,
        },
{
    let mut items: Vec<Vec<u8>> = Vec::new();
    let mut cur = pos;
    let mut i: u32 = 0;
    while i < n
        invariant
            i <= n,
            pos <= cur <= buf@.len(),
            match take_bytes_list(buf@, cur as int, (n - i) as nat) {
                Option::None => take_bytes_list(buf@, pos as int, n as nat) is None,
                Option::Some(t) => take_bytes_list(buf@, pos as int, n as nat) == Some(
                    (bytes_list_view(items@) + t.0, t.1),
                ),
            },
        decreases n - i,
    {
        let (x, p) = match read_frame(buf, cur) {
            Ok(p) => p,
            Err(e) => {
                return Err(e);
            },
        };
        proof {
            let rest = take_bytes_list(buf@, p as int, (n - i - 1) as nat);
            if rest is Some {
                let t = rest->Some_0;
                assert(bytes_list_view(items@.push(x)) =~= bytes_list_view(items@).push(x@));
                assert(bytes_list_view(items@) + (seq![x@] + t.0) =~= bytes_list_view(
                    items@.push(x),
                ) + t.0);
            }
        }
        items.push(x);
        cur = p;
        i = i + 1;
    }
    proof {
        assert(bytes_list_view(items@) + Seq::<Seq<u8>>::empty() =~= bytes_list_view(items@));
    }
    Ok((items, cur))
}

/// An encoded list placed after `prefix` parses back to its elements.
pub proof fn lemma_take_bytes_list_encoding(b: Seq<u8>, prefix: Seq<u8>, items: Seq<Seq<u8>>)
    requires
        wf_bytes_list(items),
        prefix.len() + encode_bytes_list(items).len() <= b.len(),
        b.subrange(
            prefix.len() as int,
            prefix.len() + encode_bytes_list(items).len() as int,
        ) == encode_bytes_list(items),
    ensures
        take_bytes_list(b, prefix.len() as int, items.len()) == Some(
            (items, prefix.len() + encode_bytes_list(items).len() as int),
        ),
    decreases items.len(),
{
    if items.len() == 0 {
        assert(take_bytes_list(b, prefix.len() as int, 0) == Some(
            (Seq::<Seq<u8>>::empty(), prefix.len() as int),
        ));
        assert(Seq::<Seq<u8>>::empty() =~= items);
    } else {
        let x = items[0];
        let rest = items.drop_first();
        assert(encode_bytes_list(items) == framed(x) + encode_bytes_list(rest));
        lemma_subrange_split(b, prefix.len() as int, framed(x), encode_bytes_list(rest));
        lemma_take_frame_encoding(b, prefix, x);
        assert((prefix + framed(x)).len() == prefix.len() + framed(x).len());
        assert(b.subrange(
            (prefix + framed(x)).len() as int,
            (prefix + framed(x)).len() + encode_bytes_list(rest).len() as int,
        ) == encode_bytes_list(rest));
        lemma_take_bytes_list_encoding(b, prefix + framed(x), rest);
        assert(seq![x] + rest =~= items);
    }
}

// ------------------------------------------------------------------
// Topic lists: one name frame and one partition-count header per topic.
// ------------------------------------------------------------------


/// Every topic name short enough for a four-byte length header.
pub open spec fn wf_topics_list(items: Seq<TopicMetadataView>) -> bool {
    forall|i: int| 0 <= i < items.len() ==> (#[trigger] items[i]).name.len() <= u32::MAX
}

/// Wire image of one topic: its name frame, then its partition count.
pub open spec fn encode_topic(t: TopicMetadataView) -> Seq<u8>
    recommends
        t.name.len() <= u32::MAX,
{
    framed(t.name) + u32_le_bytes(t.partition_count)
}

/// Wire image of a list of topics.
pub open spec fn encode_topics_list(items: Seq<TopicMetadataView>) -> Seq<u8>
    decreases items.len(),
{
    if items.len() == 0 {
        Seq::empty()
    } else {
        encode_topic(items[0]) + encode_topics_list(items.drop_first())
    }
}

/// Appending one topic appends one topic image.
pub proof fn lemma_encode_topics_list_push(items: Seq<TopicMetadataView>, x: TopicMetadataView)
    ensures
        encode_topics_list(items.push(x)) == encode_topics_list(items) + encode_topic(x),
    decreases items.len(),
{
    assert(items.push(x)[0] == if items.len() == 0 { x } else { items[0] });
    if items.len() == 0 {
        assert(items.push(x).drop_first() =~= Seq::<TopicMetadataView>::empty());
        assert(encode_topics_list(Seq::<TopicMetadataView>::empty()) == Seq::<u8>::empty());
        assert(encode_topics_list(items.push(x)) == encode_topic(x) + Seq::<u8>::empty());
        assert(encode_topics_list(items.push(x)) =~= encode_topics_list(items) + encode_topic(x));
    } else {
        assert(items.push(x).drop_first() =~= items.drop_first().push(x));
        lemma_encode_topics_list_push(items.drop_first(), x);
        assert(encode_topics_list(items.push(x)) == encode_topic(items[0]) + (encode_topics_list(
            items.drop_first(),
        ) + encode_topic(x)));
        assert(encode_topics_list(items.push(x)) =~= encode_topics_list(items) + encode_topic(x));
    }
}

/// Ghost image of a vector of topics.
pub open spec fn topics_list_view(items: Seq<TopicMetadata>) -> Seq<TopicMetadataView> {
    Seq::new(items.len(), |i: int| items[i]@)
}

/// Appends the image of each topic in `items` to `out`.
pub fn push_topics_list(out: &mut Vec<u8>, items: &Vec<TopicMetadata>)
    requires
        wf_topics_list(topics_list_view(items@)),
    ensures
        final(out)@ == old(out)@ + encode_topics_list(topics_list_view(items@)),
{
    let ghost base = out@;
    let ghost view = topics_list_view(items@);
    let mut i: usize = 0;
    while i < items.len()
        invariant
            i <= items@.len(),
            view == topics_list_view(items@),
            wf_topics_list(view),
            out@ == base + encode_topics_list(view.subrange(0, i as int)),
        decreases items@.len() - i,
    {
        assert(view.subrange(0, i + 1) =~= view.subrange(0, i as int).push(view[i as int]));
        proof {
            lemma_encode_topics_list_push(view.subrange(0, i as int), view[i as int]);
        }
        push_frame(out, items[i].name.as_slice());
        encode_u32(out, items[i].partition_count);
        i = i + 1;
        assert(out@ =~= base + encode_topics_list(view.subrange(0, i as int)));
    }
    assert(view.subrange(0, items@.len() as int) =~= view);
}

/// Parses one topic at `pos`: a name frame, then a partition count.
pub open spec fn take_topic(b: Seq<u8>, pos: int) -> Option<(TopicMetadataView, int)> {
    match take_frame(b, pos) {
        Option::None => None,
        Option::Some((name, p)) => match take_u32(b, p) {
            Option::None => None,
            Option::Some((pc, end)) => Some(
                (TopicMetadataView { name, partition_count: pc }, end),
            ),
        },
    }
}

/// Parses `n` consecutive topics starting at `pos`.
pub open spec fn take_topics_list(b: Seq<u8>, pos: int, n: nat) -> Option<
    (Seq<TopicMetadataView>, int),
>
    decreases n,
{
    if n == 0 {
        Some((Seq::empty(), pos))
    } else {
        match take_topic(b, pos) {
            Option::None => None,
            Option::Some((x, p)) => match take_topics_list(b, p, (n - 1) as nat) {
                Option::None => None,
                Option::Some((xs, end)) => Some((seq![x] + xs, end)),
            },
        }
    }
}

/// Reads one topic at `pos`.
pub fn read_topic(buf: &[u8], pos: usize) -> (r: Result<(TopicMetadata, usize), DecodeError>)
    requires
        pos <= buf@.len(),
    ensures
        match r {
            Ok(p) => take_topic(buf@, pos as int) == Some((p.0@, p.1 as int)) && pos < p.1
                <= buf@.len(),
            Err(e) => take_topic(buf@, pos as int) is None && e == DecodeError::Truncated,
        },
{
    let (name, p) = match read_frame(buf, pos) {
        Ok(p) => p,
        Err(e) => {
            return Err(e);
        },
    };
    let (pc, end) = match read_u32_checked(buf, p) {
        Ok(p) => p,
        Err(e) => {
            return Err(e);
        },
    };
    Ok((TopicMetadata { name, partition_count: pc }, end))
}

/// Reads `n` consecutive topics starting at `pos`.
pub fn read_topics_list(buf: &[u8], pos: usize, n: u32) -> (r: Result<
    (Vec<TopicMetadata>, usize),
    DecodeError,
>)
    requires
        pos <= buf@.len(),
    ensures
        match r {
            Ok(p) => take_topics_list(buf@, pos as int, n as nat) == Some(
                (topics_list_view(p.0@), p.1 as int),
            ) && pos <= p.1 <= buf@.len(),
            Err(e) => take_topics_list(buf@, pos as int, n as nat) is None && e
                == DecodeError::Truncated,
        },
{
    let mut items: Vec<TopicMetadata> = Vec::new();
    let mut cur = pos;
    let mut i: u32 = 0;
    while i < n
        invariant
            i <= n,
            pos <= cur <= buf@.len(),
            match take_topics_list(buf@, cur as int, (n - i) as nat) {
                Option::None => take_topics_list(buf@, pos as int, n as nat) is None,
                Option::Some(t) => take_topics_list(buf@, pos as int, n as nat) == Some(
                    (topics_list_view(items@) + t.0, t.1),
                ),
            },
        decreases n - i,
    {
        let (x, p) = match read_topic(buf, cur) {
            Ok(p) => p,
            Err(e) => {
                return Err(e);
            },
        };
        proof {
            let rest = take_topics_list(buf@, p as int, (n - i - 1) as nat);
            if rest is Some {
                let t = rest->Some_0;
                assert(topics_list_view(items@.push(x)) =~= topics_list_view(items@).push(x@));
                assert(topics_list_view(items@) + (seq![x@] + t.0) =~= topics_list_view(
                    items@.push(x),
                ) + t.0);
            }
        }
        items.push(x);
        cur = p;
        i = i + 1;
    }
    proof {
        assert(topics_list_view(items@) + Seq::<TopicMetadataView>::empty() =~= topics_list_view(
            items@,
        ));
    }
    Ok((items, cur))
}

/// An encoded topic placed after `prefix` parses back to itself.
pub proof fn lemma_take_topic_encoding(b: Seq<u8>, prefix: Seq<u8>, t: TopicMetadataView)
    requires
        t.name.len() <= u32::MAX,
        prefix.len() + encode_topic(t).len() <= b.len(),
        b.subrange(prefix.len() as int, prefix.len() + encode_topic(t).len() as int)
            == encode_topic(t),
    ensures
        take_topic(b, prefix.len() as int) == Some(
            (t, prefix.len() + encode_topic(t).len() as int),
        ),
{
    lemma_subrange_split(b, prefix.len() as int, framed(t.name), u32_le_bytes(t.partition_count));
    lemma_take_frame_encoding(b, prefix, t.name);
    lemma_take_u32_encoding(b, prefix + framed(t.name), t.partition_count);
    assert((prefix + framed(t.name)).len() == prefix.len() + 4 + t.name.len());
}

/// An encoded topic list placed after `prefix` parses back to its elements.
pub proof fn lemma_take_topics_list_encoding(
    b: Seq<u8>,
    prefix: Seq<u8>,
    items: Seq<TopicMetadataView>,
)
    requires
        wf_topics_list(items),
        prefix.len() + encode_topics_list(items).len() <= b.len(),
        b.subrange(
            prefix.len() as int,
            prefix.len() + encode_topics_list(items).len() as int,
        ) == encode_topics_list(items),
    ensures
        take_topics_list(b, prefix.len() as int, items.len()) == Some(
            (items, prefix.len() + encode_topics_list(items).len() as int),
        ),
    decreases items.len(),
{
    if items.len() == 0 {
        assert(Seq::<TopicMetadataView>::empty() =~= items);
    } else {
        let x = items[0];
        let rest = items.drop_first();
        assert(encode_topics_list(items) == encode_topic(x) + encode_topics_list(rest));
        lemma_subrange_split(b, prefix.len() as int, encode_topic(x), encode_topics_list(rest));
        lemma_take_topic_encoding(b, prefix, x);
        assert((prefix + encode_topic(x)).len() == prefix.len() + encode_topic(x).len());
        assert(b.subrange(
            (prefix + encode_topic(x)).len() as int,
            (prefix + encode_topic(x)).len() + encode_topics_list(rest).len() as int,
        ) == encode_topics_list(rest));
        lemma_take_topics_list_encoding(b, prefix + encode_topic(x), rest);
        assert(seq![x] + rest =~= items);
    }
}

// ------------------------------------------------------------------
// Values: a tag byte, then the payload of the tagged kind.
// ------------------------------------------------------------------

/// Tag of an uninterpreted blob value.
pub const BLOB_TAG: u8 = 0;

/// Tag of a cluster-metadata value.
pub const METADATA_TAG: u8 = 1;

/// Within four-byte length headers everywhere: list lengths and every
/// broker address and topic name.
pub open spec fn wf_metadata(m: ClusterMetadataView) -> bool {
    &&& m.brokers.len() <= u32::MAX
    &&& wf_bytes_list(m.brokers)
    &&& m.topics.len() <= u32::MAX
    &&& wf_topics_list(m.topics)
}

/// A value the wire format can carry.
pub open spec fn wf_value(v: ValueView) -> bool {
    match v {
        ValueView::Metadata(m) => wf_metadata(m),
        ValueView::Blob(_) => true,
    }
}

/// Wire image of a metadata snapshot: broker count, broker frames, topic
/// count, topic images.
pub open spec fn metadata_encoding(m: ClusterMetadataView) -> Seq<u8>
    recommends
        wf_metadata(m),
{
    u32_le_bytes(m.brokers.len() as u32) + encode_bytes_list(m.brokers) + u32_le_bytes(
        m.topics.len() as u32,
    ) + encode_topics_list(m.topics)
}

/// Wire image of a value: its tag byte, then its payload.
pub open spec fn value_encoding(v: ValueView) -> Seq<u8>
    recommends
        wf_value(v),
{
    match v {
        ValueView::Blob(b) => seq![BLOB_TAG] + b,
        ValueView::Metadata(m) => seq![METADATA_TAG] + metadata_encoding(m),
    }
}

/// Appends `b` unframed to `out`.
pub fn push_bytes(out: &mut Vec<u8>, b: &[u8])
    ensures
        final(out)@ == old(out)@ + b@,
{
    let ghost base = out@;
    let mut i: usize = 0;
    while i < b.len()
        invariant
            i <= b@.len(),
            out@ == base + b@.subrange(0, i as int),
        decreases b@.len() - i,
    {
        out.push(b[i]);
        i = i + 1;
        assert(out@ =~= base + b@.subrange(0, i as int));
    }
    assert(out@ =~= base + b@);
}

/// Executable form of [`wf_value`].
pub fn check_value_wf(v: &Value) -> (r: bool)
    ensures
        r == wf_value(v@),
{
    match v {
        Value::Blob(_) => true,
        Value::Metadata(m) => {
            if m.brokers.len() > u32::MAX as usize || m.topics.len() > u32::MAX as usize {
                assert(m@.brokers.len() == m.brokers@.len());
                assert(m@.topics.len() == m.topics@.len());
                return false;
            }
            let mut i: usize = 0;
            while i < m.brokers.len()
                invariant
                    v@ == ValueView::Metadata(m@),
                    i <= m.brokers@.len(),
                    forall|j: int| 0 <= j < i ==> (#[trigger] m.brokers@[j])@.len() <= u32::MAX,
                decreases m.brokers@.len() - i,
            {
                if m.brokers[i].len() > u32::MAX as usize {
                    assert(m@.brokers[i as int] == m.brokers@[i as int]@);
                    assert(!wf_bytes_list(m@.brokers));
                    return false;
                }
                i = i + 1;
            }
            let mut i: usize = 0;
            while i < m.topics.len()
                invariant
                    v@ == ValueView::Metadata(m@),
                    i <= m.topics@.len(),
                    forall|j: int| 0 <= j < i ==> (#[trigger] m.topics@[j])@.name.len()
                        <= u32::MAX,
                decreases m.topics@.len() - i,
            {
                if m.topics[i].name.len() > u32::MAX as usize {
                    assert(m@.topics[i as int] == m.topics@[i as int]@);
                    assert(!wf_topics_list(m@.topics));
                    return false;
                }
                i = i + 1;
            }
            assert forall|j: int| 0 <= j < m@.brokers.len() implies (
            #[trigger] m@.brokers[j]).len() <= u32::MAX by {
                assert(m@.brokers[j] == m.brokers@[j]@);
            }
            assert forall|j: int| 0 <= j < m@.topics.len() implies (
            #[trigger] m@.topics[j]).name.len() <= u32::MAX by {
                assert(m@.topics[j] == m.topics@[j]@);
            }
            true
        },
    }
}

/// Encodes a value into its wire image.
pub fn encode_value(v: &Value) -> (r: Vec<u8>)
    requires
        wf_value(v@),
    ensures
        r@ == value_encoding(v@),
{
    let mut out: Vec<u8> = Vec::new();
    match v {
        Value::Blob(b) => {
            out.push(BLOB_TAG);
            push_bytes(&mut out, b.as_slice());
            assert(out@ =~= value_encoding(v@));
        },
        Value::Metadata(m) => {
            out.push(METADATA_TAG);
            proof {
                assert(bytes_list_view(m.brokers@) =~= m@.brokers);
                assert(topics_list_view(m.topics@) =~= m@.topics);
            }
            encode_u32(&mut out, m.brokers.len() as u32);
            push_bytes_list(&mut out, &m.brokers);
            encode_u32(&mut out, m.topics.len() as u32);
            push_topics_list(&mut out, &m.topics);
            assert(out@ =~= value_encoding(v@));
        },
    }
    out
}

/// Parses a value: its tag byte, then exactly its payload.
pub open spec fn decode_value_spec(b: Seq<u8>) -> Result<ValueView, DecodeError> {
    if b.len() < 1 {
        Err(DecodeError::Truncated)
    } else if b[0] == BLOB_TAG {
        Ok(ValueView::Blob(b.subrange(1, b.len() as int)))
    } else if b[0] == METADATA_TAG {
        match take_u32(b, 1) {
            Option::None => Err(DecodeError::Truncated),
            Option::Some((nb, p1)) => match take_bytes_list(b, p1, nb as nat) {
                Option::None => Err(DecodeError::Truncated),
                Option::Some((brokers, p2)) => match take_u32(b, p2) {
                    Option::None => Err(DecodeError::Truncated),
                    Option::Some((nt, p3)) => match take_topics_list(b, p3, nt as nat) {
                        Option::None => Err(DecodeError::Truncated),
                        Option::Some((topics, end)) => if end == b.len() {
                            Ok(ValueView::Metadata(ClusterMetadataView { brokers, topics }))
                        } else {
                            Err(DecodeError::TrailingBytes)
                        },
                    },
                },
            },
        }
    } else {
        Err(DecodeError::UnknownTag)
    }
}

/// Ghost image of a decoded value.
pub open spec fn value_result_view(r: Result<Value, DecodeError>) -> Result<
    ValueView,
    DecodeError,
> {
    match r {
        Ok(v) => Ok(v@),
        Err(e) => Err(e),
    }
}

/// Decodes a value from its wire image.
pub fn decode_value(buf: &Vec<u8>) -> (r: Result<Value, DecodeError>)
    ensures
        value_result_view(r) == decode_value_spec(buf@),
{
    if buf.len() < 1 {
        return Err(DecodeError::Truncated);
    }
    let tag = buf[0];
    if tag == BLOB_TAG {
        let mut blob: Vec<u8> = Vec::new();
        let mut i: usize = 1;
        while i < buf.len()
            invariant
                1 <= i <= buf@.len(),
                blob@ == buf@.subrange(1, i as int),
            decreases buf@.len() - i,
        {
            blob.push(buf[i]);
            i = i + 1;
            assert(blob@ =~= buf@.subrange(1, i as int));
        }
        Ok(Value::Blob(blob))
    } else if tag == METADATA_TAG {
        let (nb, p1) = match read_u32_checked(buf.as_slice(), 1) {
            Ok(p) => p,
            Err(e) => {
                return Err(e);
            },
        };
        let (brokers, p2) = match read_bytes_list(buf.as_slice(), p1, nb) {
            Ok(p) => p,
            Err(e) => {
                return Err(e);
            },
        };
        let (nt, p3) = match read_u32_checked(buf.as_slice(), p2) {
            Ok(p) => p,
            Err(e) => {
                return Err(e);
            },
        };
        let (topics, end) = match read_topics_list(buf.as_slice(), p3, nt) {
            Ok(p) => p,
            Err(e) => {
                return Err(e);
            },
        };
        if end != buf.len() {
            return Err(DecodeError::TrailingBytes);
        }
        let m = ClusterMetadata { brokers, topics };
        proof {
            assert(m@.brokers =~= bytes_list_view(m.brokers@));
            assert(m@.topics =~= topics_list_view(m.topics@));
        }
        Ok(Value::Metadata(m))
    } else {
        Err(DecodeError::UnknownTag)
    }
}

/// An encoded value decodes back to itself.
pub proof fn lemma_value_round_trip(v: ValueView)
    requires
        wf_value(v),
    ensures
        decode_value_spec(value_encoding(v)) == Ok::<_, DecodeError>(v),
{
    let b = value_encoding(v);
    match v {
        ValueView::Blob(blob) => {
            assert(b[0] == BLOB_TAG);
            assert(b.subrange(1, b.len() as int) =~= blob);
        },
        ValueView::Metadata(m) => {
            let h1 = u32_le_bytes(m.brokers.len() as u32);
            let e1 = encode_bytes_list(m.brokers);
            let h2 = u32_le_bytes(m.topics.len() as u32);
            let e2 = encode_topics_list(m.topics);
            let tag = seq![METADATA_TAG];
            assert(b == tag + (h1 + e1 + h2 + e2));
            assert(b[0] == METADATA_TAG);
            let p0: int = 1;
            assert(b.subrange(p0, p0 + (h1 + e1 + h2 + e2).len() as int) =~= h1 + e1 + h2 + e2);
            assert(h1 + e1 + h2 + e2 =~= h1 + (e1 + (h2 + e2)));
            lemma_subrange_split(b, p0, h1, e1 + (h2 + e2));
            lemma_take_u32_encoding(b, tag, m.brokers.len() as u32);
            let p1 = p0 + 4;
            assert(e1 + (h2 + e2) =~= e1 + (h2 + e2));
            lemma_subrange_split(b, p1, e1, h2 + e2);
            assert((tag + h1).len() == p1);
            assert(b.subrange(p1, p1 + e1.len() as int) == e1);
            lemma_take_bytes_list_encoding(b, tag + h1, m.brokers);
            let p2 = p1 + e1.len() as int;
            lemma_subrange_split(b, p2, h2, e2);
            assert((tag + h1 + e1).len() == p2);
            lemma_take_u32_encoding(b, tag + h1 + e1, m.topics.len() as u32);
            let p3 = p2 + 4;
            assert((tag + h1 + e1 + h2).len() == p3);
            assert(b.subrange(p3, p3 + e2.len() as int) == e2);
            lemma_take_topics_list_encoding(b, tag + h1 + e1 + h2, m.topics);
            let end = p3 + e2.len() as int;
            assert(end == b.len());
            assert(decode_value_spec(b) == Ok::<_, DecodeError>(
                ValueView::Metadata(ClusterMetadataView { brokers: m.brokers, topics: m.topics }),
            ));
            assert(ClusterMetadataView { brokers: m.brokers, topics: m.topics } == m);
        },
    }
}

} // verus!
