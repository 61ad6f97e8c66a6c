//! The LZXD encoder: buffers input into chunks of `CHUNK_SIZE` bytes and
//! writes each as one uncompressed block.

use crate::bits::BitWriter;
use crate::bits::{lemma_wrote_more_bits, lemma_wrote_then_aligned, wrote_bits, WriterModel};
use crate::bitseq::{
    bits_of, bytes_of_bits, lemma_bits_of_len, lemma_bytes_of_bits_append, lemma_bytes_of_short,
    zero_bits,
};
use crate::block_type::BlockType;
use crate::consts::CHUNK_SIZE;
use crate::consts::WINDOW_MAX;
use crate::consts::WINDOW_MIN;
use crate::error::Error;
use crate::le::le32_bytes;
use vstd::arithmetic::div_mod::lemma_fundamental_div_mod;
use vstd::arithmetic::div_mod::lemma_fundamental_div_mod_converse;
use vstd::arithmetic::power2::lemma2_to64;
use vstd::arithmetic::power2::pow2;
use vstd::prelude::*;

verus! {

/// The header bits of a chunk of `len` bytes written as one uncompressed
/// block: the "no declared file size" flag where the chunk opens the stream,
/// then the block kind, the block length and a filler bit.
pub open spec fn chunk_header_bits(len: nat, first: bool) -> Seq<bool> {
    (if first {
        bits_of(0, 1)
    } else {
        Seq::empty()
    }) + bits_of(3, 3) + bits_of(len, 24) + bits_of(0, 1)
}

/// The encoding of the chunk `c`: its compressed size, the block header
/// completed to a word, the three recent offsets (all 1), the bytes, and a
/// zero byte after an odd count.
pub open spec fn chunk_bytes(c: Seq<u8>, first: bool) -> Seq<u8> {
    let len = c.len();
    let size = 16 + len + len % 2;
    let h = chunk_header_bits(len, first);
    seq![(size % 256) as u8, (size / 256) as u8] + bytes_of_bits(
        h + zero_bits((32 - h.len()) as nat),
    ) + le32_bytes(1) + le32_bytes(1) + le32_bytes(1) + c + (if len % 2 == 1 {
        seq![0u8]
    } else {
        Seq::empty()
    })
}

/// The encoding of `s` cut into chunks of `CHUNK_SIZE` bytes (the last may
/// be shorter); `first` tells whether the first of them opens the stream.
pub open spec fn encoded(s: Seq<u8>, first: bool) -> Seq<u8>
    decreases s.len(),
{
    if s.len() == 0 {
        Seq::empty()
    } else if s.len() <= CHUNK_SIZE {
        chunk_bytes(s, first)
    } else {
        chunk_bytes(s.take(CHUNK_SIZE as int), first) + encoded(s.skip(CHUNK_SIZE as int), false)
    }
}

/// The encoding of a whole stream of bytes.
pub open spec fn encode_stream(s: Seq<u8>) -> Seq<u8> {
    encoded(s, true)
}

/// Encoding more whole chunks after a run of whole chunks adds their
/// encodings.
proof fn lemma_encoded_append(s: Seq<u8>, c: Seq<u8>, first: bool)
    requires
        s.len() % (CHUNK_SIZE as nat) == 0,
        0 < c.len() <= CHUNK_SIZE,
    ensures
        encoded(s + c, first) == encoded(s, first) + chunk_bytes(c, first && s.len() == 0),
    decreases s.len(),
{
    if s.len() == 0 {
        assert(s + c =~= c);
        assert(encoded(s, first) + chunk_bytes(c, first) =~= chunk_bytes(c, first));
    } else {
        assert((s + c).take(CHUNK_SIZE as int) =~= s.take(CHUNK_SIZE as int));
        assert((s + c).skip(CHUNK_SIZE as int) =~= s.skip(CHUNK_SIZE as int) + c);
        lemma_encoded_append(s.skip(CHUNK_SIZE as int), c, false);
        if s.len() == CHUNK_SIZE {
            assert(s.skip(CHUNK_SIZE as int).len() == 0);
            assert(s.take(CHUNK_SIZE as int) =~= s);
        }
    }
}


proof fn lemma_chunk_offsets(f0: nat, n: nat)
    requires
        f0 % (CHUNK_SIZE as nat) == 0,
        n < CHUNK_SIZE,
    ensures
        (f0 + n) % (CHUNK_SIZE as nat) == n,
        ((f0 + CHUNK_SIZE) as nat) % (CHUNK_SIZE as nat) == 0,
{
    let c = CHUNK_SIZE as int;
    lemma_fundamental_div_mod(f0 as int, c);
    let q = f0 as int / c;
    lemma_fundamental_div_mod_converse((f0 + n) as int, c, q, n as int);
    lemma_fundamental_div_mod_converse((f0 + c) as int, c, q + 1, 0);
}

proof fn lemma_whole_chunks(x: nat)
    ensures
        ((x - x % (CHUNK_SIZE as nat)) as nat) % (CHUNK_SIZE as nat) == 0,
        x % (CHUNK_SIZE as nat) < CHUNK_SIZE,
{
    let c = CHUNK_SIZE as int;
    lemma_fundamental_div_mod(x as int, c);
    let q = x as int / c;
    lemma_fundamental_div_mod_converse((x - x % (CHUNK_SIZE as nat)) as int, c, q, 0);
}

/// Appends `src[start..end]` to `dst`.
fn append_range(dst: &mut Vec<u8>, src: &[u8], start: usize, end: usize)
    requires
        start <= end <= src@.len(),
    ensures
        final(dst)@ == old(dst)@ + src@.subrange(start as int, end as int),
{
    let mut i: usize = start;
    while i < end
        invariant
            start <= i <= end,
            end <= src@.len(),
            dst@ == old(dst)@ + src@.subrange(start as int, i as int),
        decreases end - i,
    {
        dst.push(src[i]);
        i = i + 1;
        proof {
            assert(dst@ =~= old(dst)@ + src@.subrange(start as int, i as int));
        }
    }
}

/// An LZXD encoder: accepts exactly the declared number of bytes and writes
/// the compressed stream.
pub struct Encoder {
    writer: BitWriter,
    wrote_header: bool,
    total_uncompressed_bytes_remaining: u64,
    chunk_buffer: Vec<u8>,
    input: Ghost<Seq<u8>>,
}

impl Encoder {
    /// The bytes accepted so far.
    pub closed spec fn input(&self) -> Seq<u8> {
        self.input@
    }

    /// How many more bytes the stream takes.
    pub closed spec fn remaining(&self) -> nat {
        self.total_uncompressed_bytes_remaining as nat
    }

    /// The compressed bytes written so far.
    pub closed spec fn output(&self) -> Seq<u8> {
        self.writer@.out
    }

    /// How many of the accepted bytes have gone out in chunks: all of them
    /// once the stream is complete, else the whole chunks among them.
    pub open spec fn flushed(&self) -> nat {
        if self.remaining() == 0 {
            self.input().len()
        } else {
            (self.input().len() - self.input().len() % (CHUNK_SIZE as nat)) as nat
        }
    }

    pub closed spec fn wf(&self) -> bool {
        let flushed = self.flushed();
        &&& self.writer@.wf()
        &&& self.writer@.word_aligned()
        &&& self.input().len() + self.remaining() <= u64::MAX
        &&& self.chunk_buffer@ == self.input().skip(flushed as int)
        &&& self.chunk_buffer@.len() < CHUNK_SIZE
        &&& self.wrote_header == (flushed > 0)
        &&& self.writer@.out == encode_stream(self.input().take(flushed as int))
    }

    /// Starts a stream of `uncompressed_size` bytes; `window` must lie within
    /// `WINDOW_MIN..=WINDOW_MAX`.
    pub fn new(window: u16, uncompressed_size: u64) -> (r: Result<Encoder, Error>)
        ensures
            match r {
                Ok(e) => {
                    &&& WINDOW_MIN <= window <= WINDOW_MAX
                    &&& e.wf()
                    &&& e.input() == Seq::<u8>::empty()
                    &&& e.remaining() == uncompressed_size
                    &&& e.output() == Seq::<u8>::empty()
                },
                Err(err) => !(WINDOW_MIN <= window <= WINDOW_MAX) && err == Error::InvalidWindow(
                    window,
                ),
            },
    {
        if window < WINDOW_MIN || window > WINDOW_MAX {
            return Err(Error::InvalidWindow(window));
        }
        let e = Encoder {
            writer: BitWriter::new(),
            wrote_header: false,
            total_uncompressed_bytes_remaining: uncompressed_size,
            chunk_buffer: Vec::with_capacity(CHUNK_SIZE),
            input: Ghost(Seq::empty()),
        };
        proof {
            assert(e.input().take(0) =~= Seq::<u8>::empty());
            assert(e.input().skip(0) =~= Seq::<u8>::empty());
            assert(encode_stream(Seq::<u8>::empty()) =~= Seq::<u8>::empty());
        }
        Ok(e)
    }

    /// Writes the buffered chunk as one uncompressed block and empties the
    /// buffer.
    #[verifier::rlimit(50)]
    fn emit_chunk(&mut self)
        requires
            old(self).writer@.wf(),
            old(self).writer@.word_aligned(),
            0 < old(self).chunk_buffer@.len() <= CHUNK_SIZE,
        ensures
            final(self).writer@.wf(),
            final(self).writer@.word_aligned(),
            final(self).writer@.out == old(self).writer@.out + chunk_bytes(
                old(self).chunk_buffer@,
                !old(self).wrote_header,
            ),
            final(self).chunk_buffer@ == Seq::<u8>::empty(),
            final(self).wrote_header,
            final(self).total_uncompressed_bytes_remaining == old(self).total_uncompressed_bytes_remaining,
            final(self).input == old(self).input,
    {
        let len = self.chunk_buffer.len();
        let ghost c = self.chunk_buffer@;
        let ghost first = !self.wrote_header;
        let chunk_compressed_size = 16 + len + len % 2;
        self.writer.align_to_16();
        self.writer.write_u16_le(chunk_compressed_size as u16);
        let ghost base = self.writer@.out;
        let ghost mut h: Seq<bool> = Seq::empty();
        proof {
            lemma2_to64();
            assert(base =~= base + bytes_of_bits(h));
            assert(self.writer@.pending_bits() =~= h.skip(0));
            assert(base =~= old(self).writer@.out + seq![
                (chunk_compressed_size as u16 % 256) as u8,
                (chunk_compressed_size as u16 / 256) as u8,
            ]);
        }
        if !self.wrote_header {
            let ghost w0 = self.writer@;
            self.writer.write_bits(1, 0);
            proof {
                lemma_wrote_more_bits(w0, self.writer@, base, h, bits_of(0, 1));
                h = h + bits_of(0, 1);
            }
            self.wrote_header = true;
        }
        let ghost w1 = self.writer@;
        self.writer.write_bits(3, BlockType::Uncompressed.to_bits());
        proof {
            lemma_wrote_more_bits(w1, self.writer@, base, h, bits_of(3, 3));
            h = h + bits_of(3, 3);
        }
        let ghost w2 = self.writer@;
        self.writer.write_bits(24, len as u32);
        proof {
            lemma_wrote_more_bits(w2, self.writer@, base, h, bits_of(len as nat, 24));
            h = h + bits_of(len as nat, 24);
        }
        let ghost w3 = self.writer@;
        self.writer.write_bits(1, 0);
        proof {
            lemma_wrote_more_bits(w3, self.writer@, base, h, bits_of(0, 1));
            h = h + bits_of(0, 1);
            lemma_bits_of_len(0, 1);
            lemma_bits_of_len(3, 3);
            lemma_bits_of_len(len as nat, 24);
            assert(h =~= chunk_header_bits(len as nat, first));
            lemma_wrote_then_aligned(self.writer@, base, h);
        }
        self.writer.align_to_16();
        self.writer.write_u32_le(1);
        self.writer.write_u32_le(1);
        self.writer.write_u32_le(1);
        self.writer.write_bytes(self.chunk_buffer.as_slice());
        self.writer.align_to_16();
        self.chunk_buffer.clear();
        proof {
            assert(self.writer@.out =~= old(self).writer@.out + chunk_bytes(c, first));
        }
    }
    /// Takes `buf[start..start + num_bytes]` into the chunk buffer, writing
    /// the chunk out when it fills or completes the stream.
    #[verifier::rlimit(60)]
    fn accept(&mut self, buf: &[u8], start: usize, end: usize)
        requires
            old(self).wf(),
            start < end <= buf@.len(),
            end - start <= old(self).remaining(),
            old(self).chunk_buffer@.len() + end - start <= CHUNK_SIZE,
        ensures
            final(self).wf(),
            final(self).remaining() == old(self).remaining() - (end - start),
            final(self).input() == old(self).input() + buf@.subrange(start as int, end as int),
    {
        let bytes_written = start;
        let num_bytes = end - start;
        let ghost in0 = self.input();
        let ghost f0 = self.flushed();
        let ghost b0 = self.chunk_buffer@.len();
        proof {
            lemma_whole_chunks(in0.len());
            assert(in0.len() == f0 + b0);
        }
        append_range(&mut self.chunk_buffer, buf, bytes_written, bytes_written + num_bytes);
        let ghost new_input = in0 + buf@.subrange(bytes_written as int, bytes_written + num_bytes);
        self.input = Ghost(new_input);
        proof {
            assert(new_input =~= old(self).input() + buf@.subrange(start as int, end as int));
        }
        self.total_uncompressed_bytes_remaining = self.total_uncompressed_bytes_remaining
            - num_bytes as u64;
        if self.chunk_buffer.len() == CHUNK_SIZE || (self.total_uncompressed_bytes_remaining
            == 0 && self.chunk_buffer.len() > 0) {
            let ghost chunk = self.chunk_buffer@;
            self.emit_chunk();
            proof {
                let fl = self.flushed();
                lemma_chunk_offsets(f0, 0);
                assert(f0 % (CHUNK_SIZE as nat) == 0);
                assert(fl == new_input.len());
                assert(new_input.take(f0 as int) =~= in0.take(f0 as int));
                assert(new_input.take(f0 as int) + chunk =~= new_input.take(fl as int));
                lemma_encoded_append(new_input.take(f0 as int), chunk, true);
                assert(new_input.skip(fl as int) =~= Seq::<u8>::empty());
                assert(self.chunk_buffer@ == new_input.skip(fl as int));
                assert(self.wrote_header == (fl > 0));
                assert(self.writer@.out == encode_stream(new_input.take(fl as int)));
                assert(self.input().len() + self.remaining() <= u64::MAX);
            }
        } else {
            proof {
                let fl = self.flushed();
                lemma_chunk_offsets(f0, self.chunk_buffer@.len() as nat);
                assert(fl == f0);
                assert(new_input.take(fl as int) =~= in0.take(f0 as int));
                assert(new_input.skip(fl as int) =~= self.chunk_buffer@);
                assert(self.wrote_header == (fl > 0));
                assert(self.writer@.out == encode_stream(new_input.take(fl as int)));
                assert(self.input().len() + self.remaining() <= u64::MAX);
            }
        }
    }

    /// Accepts bytes of the stream, as many of `buf` as the declared size
    /// still takes, writing out each chunk as it fills and the last one as
    /// the stream completes. Returns how many bytes were accepted.
    pub fn write(&mut self, buf: &[u8]) -> (r: usize)
        requires
            old(self).wf(),
        ensures
            final(self).wf(),
            r as nat == if buf@.len() <= old(self).remaining() {
                buf@.len()
            } else {
                old(self).remaining()
            },
            final(self).remaining() == old(self).remaining() - r,
            final(self).input() == old(self).input() + buf@.take(r as int),
            final(self).output() == encode_stream(final(self).input().take(final(self).flushed() as int)),
    {
        let mut bytes_written: usize = 0;
        while self.total_uncompressed_bytes_remaining > 0 && bytes_written < buf.len()
            invariant
                self.wf(),
                bytes_written <= buf@.len(),
                self.input() == old(self).input() + buf@.take(bytes_written as int),
                self.remaining() + bytes_written == old(self).remaining(),
            decreases buf@.len() - bytes_written,
        {
            let room = CHUNK_SIZE - self.chunk_buffer.len();
            let mut num_bytes = buf.len() - bytes_written;
            if (room as u64) < self.total_uncompressed_bytes_remaining {
                if room < num_bytes {
                    num_bytes = room;
                }
            } else if self.total_uncompressed_bytes_remaining < num_bytes as u64 {
                num_bytes = self.total_uncompressed_bytes_remaining as usize;
            }
            self.accept(buf, bytes_written, bytes_written + num_bytes);
            bytes_written = bytes_written + num_bytes;
        }
        bytes_written
    }

    /// The compressed bytes written, the encoder given up.
    pub fn finish(self) -> (r: Vec<u8>)
        ensures
            r@ == self.output(),
    {
        self.writer.into_bytes()
    }
}

} // verus!
