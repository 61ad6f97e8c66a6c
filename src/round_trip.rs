//! The decoder gives back what the encoder encoded.

use crate::bits::ReaderModel;
use crate::bitseq::{
    bits_of, bits_val, bytes_of_bits, le16, lemma_bits_of_len, lemma_bits_of_val,
    lemma_bits_val_bound, lemma_bits_val_of,
    lemma_bytes_of_bits_len, lemma_words_bits_skip, lemma_words_of_bytes_then, words_bits,
    zero_bits,
};
use crate::block_type::BlockType;
use crate::consts::CHUNK_SIZE;
use crate::error::Error;
use crate::decoder::{
    block_header, chunk_header, next_block, produce, step_spec, stream_start, StreamState,
};
use crate::encoder::{chunk_bytes, chunk_header_bits, encode_stream, encoded};
use crate::le::le32_bytes;
use vstd::arithmetic::power2::lemma2_to64;
use vstd::math::min;
use vstd::prelude::*;

verus! {

/// The stream at the start of the body of a chunk's only block, that body
/// the first bytes of `t`, at byte `r` of `data`.
spec fn body_state(data: Seq<u8>, r: int, t: Seq<u8>) -> StreamState {
    let l = min(t.len() as int, CHUNK_SIZE as int) as nat;
    StreamState {
        src: ReaderModel { data, pos: r, buf: 0, cnt: 0, pad: false },
        total: t.len(),
        chunk: l,
        block: l,
        after_uncompressed: true,
        recent: (1, 1, 1),
    }
}

/// The chunks that follow the first chunk of `t`.
spec fn later_chunks(t: Seq<u8>) -> Seq<u8> {
    if t.len() > CHUNK_SIZE {
        encoded(t.skip(CHUNK_SIZE as int), false)
    } else {
        Seq::empty()
    }
}

spec fn pad_byte(l: nat) -> Seq<u8> {
    if l % 2 == 1 {
        seq![0u8]
    } else {
        Seq::empty()
    }
}

proof fn lemma_encoded_first(t: Seq<u8>, first: bool)
    requires
        t.len() > 0,
    ensures
        encoded(t, first) == chunk_bytes(
            t.take(min(t.len() as int, CHUNK_SIZE as int)),
            first,
        ) + later_chunks(t),
{
    if t.len() <= CHUNK_SIZE {
        assert(t.take(t.len() as int) =~= t);
        assert(chunk_bytes(t, first) + Seq::<u8>::empty() =~= chunk_bytes(t, first));
    }
}

/// The parts of a chunk's encoding, laid out from byte `p` of `data`.
#[verifier::rlimit(100)]
proof fn lemma_chunk_layout(data: Seq<u8>, p: int, t: Seq<u8>, first: bool)
    requires
        t.len() > 0,
        0 <= p <= data.len(),
        data.skip(p) == encoded(t, first),
    ensures
        ({
            let l = min(t.len() as int, CHUNK_SIZE as int) as nat;
            let c = t.take(l as int);
            let h = chunk_header_bits(l, first);
            let rest = le32_bytes(1) + le32_bytes(1) + le32_bytes(1) + c + pad_byte(l) + later_chunks(t);
            &&& c.len() == l
            &&& 0 < l <= CHUNK_SIZE
            &&& data.len() >= p + 18 + l + pad_byte(l).len()
            &&& words_bits(data, p + 2) == h + zero_bits((32 - h.len()) as nat) + words_bits(
                data.skip(p + 6),
                0,
            )
            &&& data.skip(p + 6) == rest
            &&& data.skip(p + 18) == c + pad_byte(l) + later_chunks(t)
            &&& data.skip(p + 18 + l + pad_byte(l).len()) == later_chunks(t)
        }),
{
    let l = min(t.len() as int, CHUNK_SIZE as int) as nat;
    let c = t.take(l as int);
    let h = chunk_header_bits(l, first);
    let hz = h + zero_bits((32 - h.len()) as nat);
    let o = le32_bytes(1) + le32_bytes(1) + le32_bytes(1);
    let rest = o + c + pad_byte(l) + later_chunks(t);
    let size = 16 + l + l % 2;
    lemma_encoded_first(t, first);
    lemma_bits_of_len(0, 1);
    lemma_bits_of_len(3, 3);
    lemma_bits_of_len(l, 24);
    assert(h.len() == if first { 29nat } else { 28nat });
    assert(hz.len() == 32);
    lemma_bytes_of_bits_len(hz);
    let hb = bytes_of_bits(hz);
    let d = data.skip(p);
    assert(d =~= seq![(size % 256) as u8, (size / 256) as u8] + hb + rest);
    assert(hb.len() == 4);
    assert(d.skip(2) =~= hb + rest);
    assert(data.skip(p + 2) =~= d.skip(2));
    assert(d.skip(6) =~= rest);
    assert(data.skip(p + 6) =~= d.skip(6));
    assert(data.skip(p + 18) =~= d.skip(18));
    assert(d.skip(18) =~= c + pad_byte(l) + later_chunks(t));
    lemma_words_bits_skip(data, p + 2);
    lemma_words_of_bytes_then(hz, rest);
    assert(data.skip(p + 6) =~= rest);
    lemma_words_bits_skip(data, p + 6);
    assert(data.skip(p + 18) =~= c + pad_byte(l) + later_chunks(t));
    let e = p + 18 + l + pad_byte(l).len();
    assert(d.skip(18 + l + pad_byte(l).len() as int) =~= later_chunks(t));
    assert(data.skip(e) =~= d.skip(18 + l + pad_byte(l).len() as int));
}

/// The stream at the start of a later chunk, at byte `q` of `data`, a zero
/// byte still owed after an odd body.
spec fn chunk_state(data: Seq<u8>, q: int, odd: bool, t: Seq<u8>) -> StreamState {
    StreamState {
        src: ReaderModel { data, pos: q, buf: 0, cnt: 0, pad: odd },
        total: t.len(),
        chunk: 0,
        block: 0,
        after_uncompressed: true,
        recent: (1, 1, 1),
    }
}

/// Reading the header bits of an uncompressed block of `l` bytes (the first
/// chunk's flag bit already taken where `first`) leaves the reader on the
/// word boundary where the recent offsets begin.
#[verifier::rlimit(100)]
proof fn lemma_block_header_bits(m0: ReaderModel, l: nat, first: bool)
    requires
        m0.wf(),
        0 < l <= CHUNK_SIZE,
        ({
            let h = chunk_header_bits(l, first);
            m0.rest_bits() == h.skip(if first { 1int } else { 0int }) + zero_bits((32 - h.len()) as nat) + words_bits(m0.data, m0.pos + (if first { 2int } else { 4int }))
        }),
        m0.cnt == (if first { 15nat } else { 0nat }),
        !m0.pad,
        m0.pos + (if first { 2int } else { 4int }) <= m0.data.len(),
        m0.data.len() >= m0.pos + (if first { 14int } else { 16int }),
    ensures
        ({
            let bits = m0.rest_bits();
            let m1 = m0.after_bits(3).after_bits(24).after_bits(1);
            let m2 = m1.aligned();
            &&& bits.len() >= 28
            &&& BlockType::of_code(bits_val(bits.take(3)) as u32) == Some(BlockType::Uncompressed)
            &&& bits_val(bits.subrange(3, 27)) == l
            &&& !m1.pad
            &&& m2 == (ReaderModel { data: m0.data, pos: m0.pos + (if first { 2int } else { 4int }), buf: 0, cnt: 0, pad: false })
        }),
{
    let h = chunk_header_bits(l, first);
    let bits = m0.rest_bits();
    lemma_bits_of_len(0, 1);
    lemma_bits_of_len(3, 3);
    lemma_bits_of_len(l, 24);
    lemma2_to64();
    let hs = h.skip(if first { 1int } else { 0int });
    assert(hs =~= bits_of(3, 3) + bits_of(l, 24) + bits_of(0, 1));
    assert(bits.take(3) =~= bits_of(3, 3));
    assert(bits.subrange(3, 27) =~= bits_of(l, 24));
    lemma_bits_val_of(3, 3);
    lemma_bits_val_of(l, 24);
    let a = m0.after_bits(3);
    let b = a.after_bits(24);
    let c = b.after_bits(1);
    if first {
        assert(a.pos == m0.pos && a.cnt == 12 && !a.pad);
        assert(b.pos == m0.pos + 2 && b.cnt == 4 && !b.pad);
        assert(c.pos == m0.pos + 2 && c.cnt == 3 && !c.pad);
    } else {
        assert(a.pos == m0.pos + 2 && a.cnt == 13 && !a.pad);
        assert(b.pos == m0.pos + 4 && b.cnt == 5 && !b.pad);
        assert(c.pos == m0.pos + 4 && c.cnt == 4 && !c.pad);
    }
}

/// At the start of a later chunk, one step parses the chunk and block
/// headers and reaches the block's body.
#[verifier::rlimit(100)]
proof fn lemma_later_header(data: Seq<u8>, q: int, odd: bool, t: Seq<u8>)
    requires
        t.len() > 0,
        0 <= q,
        q + (if odd { 1int } else { 0int }) <= data.len(),
        data.skip(q + (if odd { 1int } else { 0int })) == encoded(t, false),
    ensures
        step_spec(chunk_state(data, q, odd, t), t.len()) == step_spec(
            body_state(data, q + (if odd { 1int } else { 0int }) + 18, t),
            t.len(),
        ),
{
    let p = q + (if odd { 1int } else { 0int });
    let l = min(t.len() as int, CHUNK_SIZE as int) as nat;
    lemma_chunk_layout(data, p, t, false);
    lemma_words_bits_skip(data, p + 6);
    let y = chunk_state(data, q, odd, t);
    let m = y.src.aligned();
    assert(m == ReaderModel { data, pos: p, buf: 0, cnt: 0, pad: false });
    assert(m.rest_bytes() =~= data.skip(p));
    let m0 = ReaderModel { data, pos: p + 2, buf: 0, cnt: 0, pad: false };
    assert(m.after_raw(2) == m0);
    let s1 = StreamState { src: m0, chunk: l, ..y };
    assert(chunk_header(y) == Ok::<StreamState, Error>(s1));
    lemma2_to64();
    assert(m0.aligned() == m0);
    assert(m0.rest_bits() =~= words_bits(data, p + 2)) by {
        assert(bits_of(0, 0) =~= Seq::<bool>::empty());
    }
    let h = chunk_header_bits(l, false);
    assert(h.skip(0) =~= h);
    lemma_block_header_bits(m0, l, false);
    let m2 = ReaderModel { data, pos: p + 6, buf: 0, cnt: 0, pad: false };
    let b = body_state(data, p + 18, t);
    assert(m2.rest_bytes() =~= data.skip(p + 6));
    assert(m2.after_raw(4).after_raw(4).after_raw(4) == b.src);
    assert(block_header(s1) == Ok::<StreamState, Error>(b));
    let f = s1.src.budget() as nat;
    assert(f > 0);
    assert(next_block(b, (f - 1) as nat) == Ok::<StreamState, Error>(b));
    assert(next_block(s1, f) == Ok::<StreamState, Error>(b));
    assert(chunk_header(b) == Ok::<StreamState, Error>(b));
    assert(next_block(b, b.src.budget() as nat) == Ok::<StreamState, Error>(b));
}

/// From the body of a chunk's block on, the stream gives back the rest of
/// what was encoded.
#[verifier::rlimit(100)]
proof fn lemma_body(data: Seq<u8>, r: int, t: Seq<u8>)
    requires
        t.len() > 0,
        0 <= r <= data.len(),
        data.skip(r) == t.take(min(t.len() as int, CHUNK_SIZE as int)) + pad_byte(
            min(t.len() as int, CHUNK_SIZE as int) as nat,
        ) + later_chunks(t),
    ensures
        produce(body_state(data, r, t), t.len()) is Ok,
        produce(body_state(data, r, t), t.len()).unwrap().0 == t,
    decreases t.len(),
{
    let n = t.len();
    let l = min(n as int, CHUNK_SIZE as int) as nat;
    let c = t.take(l as int);
    let b = body_state(data, r, t);
    let odd = l % 2 == 1;
    let r2 = r + l + (if odd { 1int } else { 0int });
    assert(b.src.rest_bytes() =~= data.skip(r));
    assert(data.skip(r).take(l as int) =~= c);
    let s2 = chunk_state(data, r + l, odd, t.skip(l as int));
    assert(b.src.after_raw(l) == s2.src);
    assert(chunk_header(b) == Ok::<StreamState, Error>(b));
    assert(next_block(b, b.src.budget() as nat) == Ok::<StreamState, Error>(b));
    assert(step_spec(b, n) == Ok::<(Seq<u8>, StreamState), Error>((c, s2)));
    if n == l {
        assert(c =~= t);
        assert(produce(s2, 0) == Ok::<(Seq<u8>, StreamState), Error>((Seq::<u8>::empty(), s2)));
        assert(produce(b, n) == Ok::<(Seq<u8>, StreamState), Error>((c + Seq::<u8>::empty(), s2)));
        assert(c + Seq::<u8>::empty() =~= t);
    } else {
        let t2 = t.skip(CHUNK_SIZE as int);
        assert(l == CHUNK_SIZE);
        assert(data.skip(r2) =~= data.skip(r).skip(l + (if odd { 1int } else { 0int })));
        assert(data.skip(r).skip(l + (if odd { 1int } else { 0int })) =~= later_chunks(t));
        lemma_later_header(data, r + l, odd, t2);
        lemma_chunk_layout(data, r2, t2, false);
        assert(r2 <= data.len());
        lemma_body(data, r2 + 18, t2);
        let b2 = body_state(data, r2 + 18, t2);
        assert(produce(s2, t2.len()) == produce(b2, t2.len()));
        assert(c + t2 =~= t);
    }
}

/// Decoding what the encoder wrote for `s`, with the size of `s`, gives `s`
/// back.
#[verifier::rlimit(100)]
pub proof fn lemma_decode_encoded(s: Seq<u8>)
    ensures
        produce(stream_start(encode_stream(s), s.len()), s.len()) is Ok,
        produce(stream_start(encode_stream(s), s.len()), s.len()).unwrap().0 == s,
{
    let n = s.len();
    let data = encode_stream(s);
    if n == 0 {
        assert(s =~= Seq::<u8>::empty());
    } else {
        let l = min(n as int, CHUNK_SIZE as int) as nat;
        assert(data.skip(0) =~= data);
        lemma_chunk_layout(data, 0, s, true);
        lemma_words_bits_skip(data, 6);
        lemma2_to64();
        let m0 = ReaderModel { data, pos: 0, buf: 0, cnt: 0, pad: false };
        let m1 = m0.after_raw(2);
        assert(m1 == ReaderModel { data, pos: 2, buf: 0, cnt: 0, pad: false });
        let h = chunk_header_bits(l, true);
        let w = words_bits(data, 2);
        assert(m1.rest_bits() =~= w) by {
            assert(bits_of(0, 0) =~= Seq::<bool>::empty());
        }
        assert(w.take(1) =~= bits_of(0, 1));
        lemma_bits_val_of(0, 1);
        let m2 = m1.after_bits(1);
        let st = stream_start(data, n);
        assert(st.src == m2);
        let w0 = bits_of(le16(data[2], data[3]), 16);
        assert(w == w0 + words_bits(data, 4));
        lemma_bits_of_len(le16(data[2], data[3]), 16);
        let tail = w.skip(1).take(15);
        assert(tail =~= w0.skip(1));
        lemma_bits_of_val(tail);
        lemma_bits_val_bound(tail);
        assert(m2 == ReaderModel { data, pos: 4, buf: bits_val(tail), cnt: 15, pad: false });
        assert(tail.len() == 15);
        assert(bits_of(bits_val(tail), 15) == tail);
        assert(m2.rest_bits() =~= tail + words_bits(data, 4));
        assert(tail + words_bits(data, 4) =~= w.skip(1));
        assert(w == h + zero_bits((32 - h.len()) as nat) + words_bits(data.skip(6), 0));
        lemma_bits_of_len(0, 1);
        lemma_bits_of_len(3, 3);
        lemma_bits_of_len(l, 24);
        assert(h.len() == 29);
        assert(w.skip(1) =~= h.skip(1) + zero_bits((32 - h.len()) as nat) + words_bits(data, 6));
        assert(m2.rest_bits() =~= h.skip(1) + zero_bits((32 - h.len()) as nat) + words_bits(data, 6));
        lemma_block_header_bits(m2, l, true);
        let m3 = ReaderModel { data, pos: 6, buf: 0, cnt: 0, pad: false };
        let b = body_state(data, 18, s);
        assert(m3.rest_bytes() =~= data.skip(6));
        assert(m3.after_raw(4).after_raw(4).after_raw(4) == b.src);
        assert(block_header(st) == Ok::<StreamState, Error>(b));
        let f = st.src.budget() as nat;
        assert(f > 0);
        assert(next_block(b, (f - 1) as nat) == Ok::<StreamState, Error>(b));
        assert(next_block(st, f) == Ok::<StreamState, Error>(b));
        assert(chunk_header(st) == Ok::<StreamState, Error>(st));
        assert(chunk_header(b) == Ok::<StreamState, Error>(b));
        assert(next_block(b, b.src.budget() as nat) == Ok::<StreamState, Error>(b));
        assert(step_spec(st, n) == step_spec(b, n));
        lemma_body(data, 18, s);
    }
}

} // verus!
