//! The LZXD decoder: a state machine over chunks and blocks that produces
//! the uncompressed bytes on demand and keeps the history window.

use crate::bits::pow2_u64;
use crate::bits::BitReader;
use crate::bits::ReaderModel;
use crate::bitseq::bits_val;
use crate::bitseq::words_bits;
use crate::block_type::BlockType;
use crate::consts::CHUNK_SIZE;
use crate::consts::WINDOW_MAX;
use crate::consts::WINDOW_MIN;
use crate::error::Error;
use crate::le::le32;
use vstd::arithmetic::div_mod::lemma_add_mod_noop;
use vstd::arithmetic::div_mod::lemma_fundamental_div_mod;
use vstd::arithmetic::div_mod::lemma_small_mod;
use vstd::arithmetic::div_mod::lemma_mod_pos_bound;
use vstd::arithmetic::power2::lemma2_to64;
use vstd::arithmetic::power2::lemma_pow2_strictly_increases;
use vstd::arithmetic::power2::pow2;
use vstd::math::min;
use vstd::prelude::*;

verus! {

/// The circular window `w`, whose next write goes to `pos`, holds the last
/// bytes of `hist`: byte `j` of the history sits at `j % w.len()`.
pub open spec fn holds_history(w: Seq<u8>, pos: nat, hist: Seq<u8>) -> bool {
    &&& w.len() > 1
    &&& pos == hist.len() % w.len()
    &&& forall|j: int|
        0 <= j < hist.len() && hist.len() - w.len() <= j ==> #[trigger] w[j % w.len() as int]
            == hist[j]
}

proof fn lemma_mod_distinct(a: int, b: int, m: int)
    requires
        0 <= a < b,
        b - a < m,
    ensures
        a % m != b % m,
{
    lemma_fundamental_div_mod(a, m);
    lemma_fundamental_div_mod(b, m);
    if a % m == b % m {
        assert(b - a == m * (b / m - a / m)) by (nonlinear_arith)
            requires a == m * (a / m) + a % m, b == m * (b / m) + b % m, a % m == b % m;
        assert(false) by (nonlinear_arith)
            requires b - a == m * (b / m - a / m), 0 < b - a < m;
    }
}

proof fn lemma_history_push(w: Seq<u8>, pos: nat, hist: Seq<u8>, b: u8)
    requires
        holds_history(w, pos, hist),
    ensures
        holds_history(
            w.update(pos as int, b),
            ((hist.len() + 1) % w.len()) as nat,
            hist.push(b),
        ),
{
    let w2 = w.update(pos as int, b);
    let h2 = hist.push(b);
    let m = w.len() as int;
    assert forall|j: int| 0 <= j < h2.len() && h2.len() - m <= j implies #[trigger] w2[j % m]
        == h2[j] by {
        if j == hist.len() {
        } else {
            lemma_mod_distinct(j, hist.len() as int, m);
        }
    }
}

/// Where a stream stands between two steps, as far as what it produces next
/// depends on it: the compressed data still to read, the bytes left in the
/// stream, the chunk and the block, whether the last block read was
/// uncompressed (its body then ends on a word boundary), and the recent
/// offsets R0, R1, R2.
pub ghost struct StreamState {
    pub src: ReaderModel,
    pub total: nat,
    pub chunk: nat,
    pub block: nat,
    pub after_uncompressed: bool,
    pub recent: (u32, u32, u32),
}

/// The stream past the next block header: a word boundary where the last
/// block was uncompressed, the 3-bit kind, the 24-bit length, and for an
/// uncompressed block a filler bit, a word boundary and the three 32-bit
/// recent offsets. A kind code other than 1, 2 or 3 gives
/// `InvalidBlockType`, a verbatim or aligned-offset block gives
/// `UnsupportedBlockType`, and data that ends before a field gives
/// `UnexpectedEof`, each at the point where the header is read that far.
pub open spec fn block_header(st: StreamState) -> Result<StreamState, Error> {
    let m0 = if st.after_uncompressed {
        st.src.aligned()
    } else {
        st.src
    };
    let bits = m0.rest_bits();
    let code = bits_val(bits.take(3)) as u32;
    let m1 = m0.after_bits(3).after_bits(24).after_bits(1);
    let m2 = m1.aligned();
    let raw = m2.rest_bytes();
    if st.after_uncompressed && st.src.pad && st.src.pos >= st.src.data.len() {
        Err(Error::UnexpectedEof)
    } else if bits.len() < 3 {
        Err(Error::UnexpectedEof)
    } else if BlockType::of_code(code) is None {
        Err(Error::InvalidBlockType(code))
    } else if bits.len() < 27 {
        Err(Error::UnexpectedEof)
    } else if BlockType::of_code(code) != Some(BlockType::Uncompressed) {
        Err(Error::UnsupportedBlockType(BlockType::of_code(code).unwrap()))
    } else if bits.len() < 28 {
        Err(Error::UnexpectedEof)
    } else if m1.pad && m1.pos >= m1.data.len() {
        Err(Error::UnexpectedEof)
    } else if raw.len() < 12 {
        Err(Error::UnexpectedEof)
    } else {
        Ok(
            StreamState {
                src: m2.after_raw(4).after_raw(4).after_raw(4),
                block: bits_val(bits.subrange(3, 27)),
                after_uncompressed: true,
                recent: (
                    le32(raw.take(4)) as u32,
                    le32(raw.skip(4).take(4)) as u32,
                    le32(raw.skip(8).take(4)) as u32,
                ),
                ..st
            },
        )
    }
}

/// The stream past the next chunk header where the current chunk is done:
/// a word boundary, then the 16-bit compressed size; short data gives
/// `UnexpectedEof`.
pub open spec fn chunk_header(st: StreamState) -> Result<StreamState, Error> {
    let m = st.src.aligned();
    if st.chunk > 0 {
        Ok(st)
    } else if st.src.pad && st.src.pos >= st.src.data.len() {
        Err(Error::UnexpectedEof)
    } else if m.rest_bytes().len() < 2 {
        Err(Error::UnexpectedEof)
    } else {
        Ok(
            StreamState {
                src: m.after_raw(2),
                chunk: min(st.total as int, CHUNK_SIZE as int) as nat,
                ..st
            },
        )
    }
}

/// The stream at the first block with bytes left, past at most `fuel`
/// block headers, or the error of the first header that fails. Each header
/// takes bits of the data, so the bits left to read are always fuel enough.
pub open spec fn next_block(st: StreamState, fuel: nat) -> Result<StreamState, Error>
    decreases fuel,
{
    if st.block > 0 {
        Ok(st)
    } else {
        match block_header(st) {
            Err(e) => Err(e),
            Ok(s) => if fuel == 0 {
                Err(Error::UnexpectedEof)
            } else {
                next_block(s, (fuel - 1) as nat)
            },
        }
    }
}

/// One step: past the headers due, then as many bytes of the current block
/// as it, the chunk and `want` allow, taken raw from the data.
pub open spec fn step_spec(st: StreamState, want: nat) -> Result<(Seq<u8>, StreamState), Error> {
    match chunk_header(st) {
        Err(e) => Err(e),
        Ok(s1) => match next_block(s1, s1.src.budget() as nat) {
            Err(e) => Err(e),
            Ok(s2) => {
                let n = min(min(s2.block as int, s2.chunk as int), want as int) as nat;
                if s2.src.rest_bytes().len() < n {
                    Err(Error::UnexpectedEof)
                } else {
                    Ok(
                        (
                            s2.src.rest_bytes().take(n as int),
                            StreamState {
                                src: s2.src.after_raw(n),
                                total: (s2.total - n) as nat,
                                chunk: (s2.chunk - n) as nat,
                                block: (s2.block - n) as nat,
                                ..s2
                            },
                        ),
                    )
                }
            },
        },
    }
}

/// The next `want` bytes of the stream (fewer where the stream ends first)
/// and where the stream then stands, or the error where the data fails
/// first.
pub open spec fn produce(st: StreamState, want: nat) -> Result<(Seq<u8>, StreamState), Error>
    decreases want,
{
    if want == 0 || st.total == 0 {
        Ok((Seq::empty(), st))
    } else {
        match step_spec(st, want) {
            Err(e) => Err(e),
            Ok((b, s)) => if b.len() == 0 || b.len() > want {
                Err(Error::UnexpectedEof)
            } else {
                match produce(s, (want - b.len()) as nat) {
                    Err(e) => Err(e),
                    Ok((rest, s3)) => Ok((b + rest, s3)),
                }
            },
        }
    }
}

/// Where a stream of `size` bytes over `data` stands once its start is
/// read: unless the stream is empty, the first chunk's 16-bit compressed
/// size, the declared-file-size flag and, after a set flag, the 32-bit size.
pub open spec fn stream_start(data: Seq<u8>, size: nat) -> StreamState {
    let m0 = ReaderModel { data, pos: 0, buf: 0, cnt: 0, pad: false };
    let m1 = m0.after_raw(2);
    let m2 = m1.after_bits(1);
    let flag = bits_val(m1.rest_bits().take(1)) != 0;
    StreamState {
        src: if size == 0 {
            m0
        } else if flag {
            m2.after_bits(32)
        } else {
            m2
        },
        total: size,
        chunk: min(size as int, CHUNK_SIZE as int) as nat,
        block: 0,
        after_uncompressed: false,
        recent: (1, 1, 1),
    }
}

/// An LZXD decoder over compressed data held in memory.
pub struct Decoder {
    reader: BitReader,
    total_uncompressed_bytes_remaining: u64,
    chunk_compressed_bytes_remaining: usize,
    chunk_uncompressed_bytes_remaining: usize,
    header_filesize: u32,
    block_type: Option<BlockType>,
    block_uncompressed_bytes_remaining: usize,
    recent: (u32, u32, u32),
    window: Vec<u8>,
    window_pos: usize,
    history: Ghost<Seq<u8>>,
}

impl Decoder {
    /// How many more bytes the stream produces.
    pub closed spec fn remaining(&self) -> nat {
        self.total_uncompressed_bytes_remaining as nat
    }

    /// The bytes produced so far.
    pub closed spec fn history(&self) -> Seq<u8> {
        self.history@
    }

    /// Where the stream stands.
    pub closed spec fn state(&self) -> StreamState {
        StreamState {
            src: self.reader@,
            total: self.total_uncompressed_bytes_remaining as nat,
            chunk: self.chunk_uncompressed_bytes_remaining as nat,
            block: self.block_uncompressed_bytes_remaining as nat,
            after_uncompressed: self.block_type == Some(BlockType::Uncompressed),
            recent: self.recent,
        }
    }

    /// The history window.
    pub closed spec fn window(&self) -> Seq<u8> {
        self.window@
    }

    /// Where the next produced byte goes in the window.
    pub closed spec fn window_pos(&self) -> nat {
        self.window_pos as nat
    }

    /// The recent offsets R0, R1, R2.
    pub closed spec fn recent_offsets(&self) -> (u32, u32, u32) {
        self.recent
    }

    /// The file size that the stream declared, 0 where it declared none.
    pub closed spec fn declared_filesize(&self) -> u32 {
        self.header_filesize
    }

    pub closed spec fn wf(&self) -> bool {
        &&& self.reader@.wf()
        &&& self.chunk_uncompressed_bytes_remaining <= self.total_uncompressed_bytes_remaining
        &&& self.chunk_uncompressed_bytes_remaining <= CHUNK_SIZE
        &&& holds_history(self.window@, self.window_pos as nat, self.history@)
    }

    /// The number of bytes in the history window.
    pub fn window_size(&self) -> (r: usize)
        requires
            self.wf(),
        ensures
            r == self.window().len(),
    {
        self.window.len()
    }

    /// The file size that the stream declared, 0 where it declared none.
    pub fn header_filesize(&self) -> (r: u32)
        ensures
            r == self.declared_filesize(),
    {
        self.header_filesize
    }

    /// The recent offsets R0, R1, R2 that the last uncompressed block set.
    pub fn recent_offsets_now(&self) -> (r: (u32, u32, u32))
        ensures
            r == self.recent_offsets(),
    {
        self.recent
    }
    /// Starts decoding `data`, the compressed form of exactly
    /// `uncompressed_size` bytes; `window` must lie within
    /// `WINDOW_MIN..=WINDOW_MAX`. Unless the stream is empty, the first
    /// chunk's compressed size and the declared-file-size flag are read, and
    /// after a set flag the 32-bit file size.
    pub fn new(data: Vec<u8>, window: u16, uncompressed_size: u64) -> (r: Result<Decoder, Error>)
        ensures
            ({
                let bits = words_bits(data@, 2);
                let flag = bits_val(bits.take(1)) != 0;
                let in_range = WINDOW_MIN <= window <= WINDOW_MAX;
                let enough = uncompressed_size == 0 || (data@.len() >= 2 && bits.len() >= 1 && (
                flag ==> bits.len() >= 33));
                match r {
                    Ok(d) => {
                        &&& in_range && enough
                        &&& d.wf()
                        &&& d.remaining() == uncompressed_size
                        &&& d.history() == Seq::<u8>::empty()
                        &&& d.state() == stream_start(data@, uncompressed_size as nat)
                        &&& d.state().total == d.remaining()
                        &&& d.state().recent == d.recent_offsets()
                        &&& d.window().len() == pow2(window as nat)
                        &&& d.window_pos() == 0
                        &&& d.recent_offsets() == (1u32, 1u32, 1u32)
                        &&& d.declared_filesize() == if uncompressed_size > 0 && flag {
                            bits_val(bits.subrange(1, 33))
                        } else {
                            0
                        }
                    },
                    Err(e) => if in_range {
                        e == Error::UnexpectedEof && !enough
                    } else {
                        e == Error::InvalidWindow(window)
                    },
                }
            }),
    {
        if window < WINDOW_MIN || window > WINDOW_MAX {
            return Err(Error::InvalidWindow(window));
        }
        proof {
            lemma2_to64();
            lemma_pow2_strictly_increases(window as nat, 22);
            if window > 15 {
                lemma_pow2_strictly_increases(15, window as nat);
            }
        }
        let window_size = pow2_u64(window) as usize;
        let ghost d0 = data@;
        let mut reader = BitReader::new(data);
        let mut chunk_compressed_size: usize = 0;
        let mut chunk_uncompressed_size: usize = 0;
        let mut header_filesize: u32 = 0;
        if uncompressed_size > 0 {
            proof {
                assert(reader@.rest_bytes() =~= d0);
            }
            chunk_compressed_size = match reader.read_u16_le() {
                Ok(v) => v as usize,
                Err(e) => return Err(e),
            };
            proof {
                assert(reader@.rest_bits() == words_bits(d0, 2));
            }
            chunk_uncompressed_size = if uncompressed_size < CHUNK_SIZE as u64 {
                uncompressed_size as usize
            } else {
                CHUNK_SIZE
            };
            let flag = match reader.read_bits(1) {
                Ok(v) => v,
                Err(e) => return Err(e),
            };
            if flag != 0 {
                let ghost bits = words_bits(d0, 2);
                header_filesize = match reader.read_bits(32) {
                    Ok(v) => v,
                    Err(e) => return Err(e),
                };
                proof {
                    assert(bits.skip(1).take(32) =~= bits.subrange(1, 33));
                }
            }
        }
        let window_buf: Vec<u8> = vec![0u8; window_size];
        let d = Decoder {
            reader,
            total_uncompressed_bytes_remaining: uncompressed_size,
            chunk_compressed_bytes_remaining: chunk_compressed_size,
            chunk_uncompressed_bytes_remaining: chunk_uncompressed_size,
            header_filesize,
            block_type: None,
            block_uncompressed_bytes_remaining: 0,
            recent: (1, 1, 1),
            window: window_buf,
            window_pos: 0,
            history: Ghost(Seq::empty()),
        };
        proof {
            lemma_small_mod(0, window_size as nat);
        }
        Ok(d)
    }
    /// Parses the next block header: a word boundary first where the block
    /// before was uncompressed, then the 3-bit kind and the 24-bit length;
    /// for an uncompressed block a filler bit, a word boundary and the three
    /// recent offsets follow.
    fn read_block_header(&mut self) -> (r: Result<(), Error>)
        requires
            old(self).wf(),
        ensures
            match r {
                Ok(_) => {
                    &&& final(self).wf()
                    &&& block_header(old(self).state()) == Ok::<StreamState, Error>(final(self).state())
                    &&& final(self).reader@.budget() < old(self).reader@.budget()
                    &&& final(self).history == old(self).history
                    &&& final(self).window == old(self).window
                    &&& final(self).window_pos == old(self).window_pos
                },
                Err(e) => block_header(old(self).state()) == Err::<StreamState, Error>(e),
            },
    {
        let ghost st = self.state();
        if self.block_type == Some(BlockType::Uncompressed) {
            match self.reader.align_to_16() {
                Ok(_) => {},
                Err(e) => return Err(e),
            }
        }
        let ghost m0 = self.reader@;
        let ghost a = m0.rest_bits();
        let code = match self.reader.read_bits(3) {
            Ok(v) => v,
            Err(e) => return Err(e),
        };
        let kind = match BlockType::from_bits(code) {
            Ok(k) => k,
            Err(e) => return Err(e),
        };
        let len = match self.reader.read_bits(24) {
            Ok(v) => v,
            Err(e) => return Err(e),
        };
        proof {
            assert(a.skip(3).take(24) =~= a.subrange(3, 27));
        }
        match kind {
            BlockType::Uncompressed => {},
            _ => return Err(Error::UnsupportedBlockType(kind)),
        }
        self.block_type = Some(kind);
        self.block_uncompressed_bytes_remaining = len as usize;
        match self.reader.read_bits(1) {
            Ok(_) => {},
            Err(e) => return Err(e),
        }
        let ghost m1 = self.reader@;
        match self.reader.align_to_16() {
            Ok(_) => {},
            Err(e) => return Err(e),
        }
        let ghost m2 = self.reader@;
        let r0 = match self.reader.read_u32_le() {
            Ok(v) => v,
            Err(e) => return Err(e),
        };
        let r1 = match self.reader.read_u32_le() {
            Ok(v) => v,
            Err(e) => return Err(e),
        };
        let r2 = match self.reader.read_u32_le() {
            Ok(v) => v,
            Err(e) => return Err(e),
        };
        self.recent = (r0, r1, r2);
        proof {
            assert(m2.rest_bytes().skip(4).skip(4) =~= m2.rest_bytes().skip(8));
            assert(m1 == m0.after_bits(3).after_bits(24).after_bits(1));
            assert(m2 == m1.aligned());
        }
        Ok(())
    }

    /// Appends `bytes` to the history window.
    fn record(&mut self, bytes: &Vec<u8>)
        requires
            old(self).wf(),
        ensures
            final(self).wf(),
            final(self).history() == old(self).history() + bytes@,
            final(self).reader == old(self).reader,
            final(self).total_uncompressed_bytes_remaining == old(self).total_uncompressed_bytes_remaining,
            final(self).chunk_uncompressed_bytes_remaining == old(self).chunk_uncompressed_bytes_remaining,
            final(self).block_uncompressed_bytes_remaining == old(self).block_uncompressed_bytes_remaining,
            final(self).block_type == old(self).block_type,
            final(self).recent == old(self).recent,
    {
        let mut i: usize = 0;
        while i < bytes.len()
            invariant
                i <= bytes@.len(),
                self.wf(),
                self.history() == old(self).history() + bytes@.take(i as int),
                self.reader == old(self).reader,
                self.total_uncompressed_bytes_remaining == old(self).total_uncompressed_bytes_remaining,
                self.chunk_uncompressed_bytes_remaining == old(self).chunk_uncompressed_bytes_remaining,
                self.block_uncompressed_bytes_remaining == old(self).block_uncompressed_bytes_remaining,
                self.block_type == old(self).block_type,
                self.recent == old(self).recent,
            decreases bytes.len() - i,
        {
            let b = bytes[i];
            proof {
                lemma_history_push(self.window@, self.window_pos as nat, self.history@, b);
                lemma_add_mod_noop(self.history@.len() as int, 1, self.window@.len() as int);
                lemma_small_mod(1, self.window@.len() as nat);
                lemma_mod_pos_bound(self.history@.len() as int, self.window@.len() as int);
                if self.window_pos + 1 < self.window@.len() {
                    lemma_small_mod((self.window_pos + 1) as nat, self.window@.len() as nat);
                } else {
                    vstd::arithmetic::div_mod::lemma_mod_self_0(self.window@.len() as int);
                }
            }
            self.window.set(self.window_pos, b);
            self.window_pos = if self.window_pos == self.window.len() - 1 {
                0
            } else {
                self.window_pos + 1
            };
            self.history = Ghost(self.history@.push(b));
            i = i + 1;
            proof {
                assert(self.history@ =~= old(self).history() + bytes@.take(i as int));
            }
        }
        proof {
            assert(bytes@.take(i as int) =~= bytes@);
        }
    }
    /// Parses block headers until a block with bytes left.
    fn advance_to_block(&mut self) -> (r: Result<(), Error>)
        requires
            old(self).wf(),
            old(self).chunk_uncompressed_bytes_remaining > 0,
        ensures
            match r {
                Ok(_) => {
                    &&& final(self).wf()
                    &&& next_block(old(self).state(), old(self).state().src.budget() as nat) == Ok::<StreamState, Error>(final(self).state())
                    &&& final(self).block_uncompressed_bytes_remaining > 0
                    &&& final(self).chunk_uncompressed_bytes_remaining > 0
                    &&& final(self).remaining() == old(self).remaining()
                    &&& final(self).history() == old(self).history()
                },
                Err(e) => next_block(old(self).state(), old(self).state().src.budget() as nat) == Err::<StreamState, Error>(e),
            },
    {
        let ghost s1 = self.state();
        let ghost mut fuel: nat = s1.src.budget() as nat;
        while self.block_uncompressed_bytes_remaining == 0
            invariant
                self.wf(),
                self.chunk_uncompressed_bytes_remaining > 0,
                self.remaining() == old(self).remaining(),
                self.history() == old(self).history(),
                s1 == old(self).state(),
                next_block(s1, s1.src.budget() as nat) == next_block(self.state(), fuel),
                self.reader@.budget() <= fuel,
            decreases self.reader@.budget(),
        {
            let ghost before = self.state();
            match self.read_block_header() {
                Ok(_) => {},
                Err(e) => {
                    proof {
                        assert(next_block(before, fuel) == Err::<StreamState, Error>(e));
                    }
                    return Err(e);
                },
            }
            proof {
                assert(fuel > 0);
                assert(next_block(before, fuel) == next_block(self.state(), (fuel - 1) as nat));
                fuel = (fuel - 1) as nat;
            }
        }
        Ok(())
    }

    /// One step of the state machine: the next chunk header where the chunk
    /// is done, block headers until a block with bytes left, then up to
    /// `want` bytes of that block.
    #[verifier::rlimit(60)]
    fn step(&mut self, want: usize) -> (r: Result<Vec<u8>, Error>)
        requires
            old(self).wf(),
            old(self).remaining() > 0,
            want > 0,
        ensures
            match r {
                Ok(bytes) => {
                    &&& final(self).wf()
                    &&& step_spec(old(self).state(), want as nat) == Ok::<(Seq<u8>, StreamState), Error>((bytes@, final(self).state()))
                    &&& 0 < bytes@.len() <= want
                    &&& final(self).remaining() == old(self).remaining() - bytes@.len()
                    &&& final(self).history() == old(self).history() + bytes@
                },
                Err(e) => step_spec(old(self).state(), want as nat) == Err::<(Seq<u8>, StreamState), Error>(e),
            },
    {
        let ghost st0 = self.state();
        if self.chunk_uncompressed_bytes_remaining == 0 {
            match self.reader.align_to_16() {
                Ok(_) => {},
                Err(e) => return Err(e),
            }
            self.chunk_compressed_bytes_remaining = match self.reader.read_u16_le() {
                Ok(v) => v as usize,
                Err(e) => return Err(e),
            };
            self.chunk_uncompressed_bytes_remaining = if self.total_uncompressed_bytes_remaining
                < CHUNK_SIZE as u64 {
                self.total_uncompressed_bytes_remaining as usize
            } else {
                CHUNK_SIZE
            };
        }
        let ghost s1 = self.state();
        assert(chunk_header(st0) == Ok::<StreamState, Error>(s1));
        match self.advance_to_block() {
            Ok(_) => {},
            Err(e) => return Err(e),
        }
        let ghost s2 = self.state();
        let mut n = self.block_uncompressed_bytes_remaining;
        if self.chunk_uncompressed_bytes_remaining < n {
            n = self.chunk_uncompressed_bytes_remaining;
        }
        if want < n {
            n = want;
        }
        let bytes = match self.reader.read_bytes(n) {
            Ok(b) => b,
            Err(e) => return Err(e),
        };
        self.record(&bytes);
        self.block_uncompressed_bytes_remaining = self.block_uncompressed_bytes_remaining - n;
        self.chunk_uncompressed_bytes_remaining = self.chunk_uncompressed_bytes_remaining - n;
        self.total_uncompressed_bytes_remaining = self.total_uncompressed_bytes_remaining
            - n as u64;
        Ok(bytes)
    }

    /// Produces the next bytes of the stream: as many as `max_len` asks
    /// for, or all that the stream has left if fewer, exactly as `produce`
    /// gives them. Short data fails with `UnexpectedEof` rather than giving
    /// fewer bytes; after any error the decoder is not to be used again.
    pub fn read(&mut self, max_len: usize) -> (r: Result<Vec<u8>, Error>)
        requires
            old(self).wf(),
        ensures
            match r {
                Ok(out) => {
                    &&& final(self).wf()
                    &&& produce(old(self).state(), max_len as nat) == Ok::<(Seq<u8>, StreamState), Error>((out@, final(self).state()))
                    &&& final(self).state().total == final(self).remaining()
                    &&& final(self).state().recent == final(self).recent_offsets()
                    &&& out@.len() == min(max_len as int, old(self).remaining() as int)
                    &&& final(self).remaining() == old(self).remaining() - out@.len()
                    &&& final(self).history() == old(self).history() + out@
                    &&& holds_history(final(self).window(), final(self).window_pos(), final(self).history())
                },
                Err(e) => produce(old(self).state(), max_len as nat) == Err::<(Seq<u8>, StreamState), Error>(e),
            },
            old(self).remaining() == 0 ==> (r matches Ok(v) && v@.len() == 0),
    {
        let mut out: Vec<u8> = Vec::new();
        while self.total_uncompressed_bytes_remaining > 0 && out.len() < max_len
            invariant
                self.wf(),
                out@.len() <= max_len,
                self.remaining() + out@.len() == old(self).remaining(),
                self.history() == old(self).history() + out@,
                produce(old(self).state(), max_len as nat) == prepend(
                    out@,
                    produce(self.state(), (max_len - out@.len()) as nat),
                ),
            decreases max_len - out@.len(),
        {
            let ghost before = self.state();
            let ghost want = (max_len - out@.len()) as nat;
            let ghost out0 = out@;
            let bytes = match self.step(max_len - out.len()) {
                Ok(b) => b,
                Err(e) => return Err(e),
            };
            append_all(&mut out, &bytes);
            proof {
                assert(produce(before, want) == prepend(
                    bytes@,
                    produce(self.state(), (want - bytes@.len()) as nat),
                ));
                lemma_prepend_twice(out0, bytes@, produce(self.state(), (want - bytes@.len()) as nat));
            }
        }
        proof {
            assert(out@ + Seq::<u8>::empty() =~= out@);
        }
        Ok(out)
    }
}

/// `prefix` followed by what `r` gives, where it gives anything.
pub open spec fn prepend(prefix: Seq<u8>, r: Result<(Seq<u8>, StreamState), Error>) -> Result<(Seq<u8>, StreamState), Error> {
    match r {
        Ok((rest, s)) => Ok((prefix + rest, s)),
        Err(e) => Err(e),
    }
}

proof fn lemma_prepend_twice(a: Seq<u8>, b: Seq<u8>, r: Result<(Seq<u8>, StreamState), Error>)
    ensures
        prepend(a, prepend(b, r)) == prepend(a + b, r),
{
    if let Ok((rest, s)) = r {
        assert(a + (b + rest) =~= (a + b) + rest);
    }
}

/// Appends all of `src` to `dst`.
fn append_all(dst: &mut Vec<u8>, src: &Vec<u8>)
    ensures
        final(dst)@ == old(dst)@ + src@,
{
    let mut i: usize = 0;
    while i < src.len()
        invariant
            i <= src@.len(),
            dst@ == old(dst)@ + src@.take(i as int),
        decreases src@.len() - i,
    {
        dst.push(src[i]);
        i = i + 1;
        proof {
            assert(dst@ =~= old(dst)@ + src@.take(i as int));
        }
    }
    proof {
        assert(src@.take(i as int) =~= src@);
    }
}

} // verus!
