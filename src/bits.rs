//! Bit-granular access to LZXD data: fields of up to 32 bits served from
//! 16-bit little-endian words, mixed with runs of raw bytes.

use crate::bitseq::{
    field_values, field_widths, fields_bits, fields_fit, lemma_bit_fields_round_trip, read_fields,
    lemma_bits_of_zero, lemma_bytes_of_bits_append, lemma_bytes_of_word, lemma_bytes_of_short,
    le16,
    bits_of, bits_val, bytes_of_bits, lemma_bits_of_len, lemma_bits_of_split, lemma_bits_of_take_skip,
    lemma_bits_val_of, words_bits, zero_bits,
};
use crate::error::Error;
use crate::le::u16_from_le;
use crate::le::u16_to_le;
use crate::le::u32_from_le;
use crate::le::u32_to_le;
use crate::le::le32;
use crate::le::le32_bytes;
use vstd::arithmetic::power2::lemma2_to64;
use vstd::arithmetic::power2::lemma_pow2_adds;
use vstd::arithmetic::power2::lemma_pow2_pos;
use vstd::arithmetic::power2::lemma_pow2_strictly_increases;
use vstd::arithmetic::power2::pow2;
use vstd::bits::lemma_u64_pow2_no_overflow;
use vstd::bits::lemma_u64_shl_is_mul;
use vstd::prelude::*;

verus! {

/// `2^k` as a machine word.
pub(crate) fn pow2_u64(k: u16) -> (r: u64)
    requires
        k < 64,
    ensures
        r as nat == pow2(k as nat),
{
    proof {
        lemma_u64_pow2_no_overflow(k as nat);
        lemma_u64_shl_is_mul(1, k as u64);
    }
    1u64 << k
}

/// What a `BitReader` stands for: the data, the next byte to fetch, the
/// bits fetched but not yet consumed (`cnt` of them, of value `buf`), and
/// whether a raw read left the data one byte off its word boundary.
pub ghost struct ReaderModel {
    pub data: Seq<u8>,
    pub pos: int,
    pub buf: nat,
    pub cnt: nat,
    pub pad: bool,
}

impl ReaderModel {
    pub open spec fn wf(self) -> bool {
        &&& 0 <= self.pos <= self.data.len()
        &&& self.cnt < 16
        &&& self.buf < pow2(self.cnt)
    }

    /// Where the next word is fetched from.
    pub open spec fn word_pos(self) -> int {
        self.pos + if self.pad { 1int } else { 0int }
    }

    /// The bits that bit reads take from here on.
    pub open spec fn rest_bits(self) -> Seq<bool> {
        bits_of(self.buf, self.cnt) + words_bits(self.data, self.word_pos())
    }

    /// The bytes that raw reads take from here on: a whole byte still held
    /// among the fetched bits, then the data not yet fetched.
    pub open spec fn rest_bytes(self) -> Seq<u8> {
        (if self.cnt >= 8 {
            seq![(self.buf % 256) as u8]
        } else {
            Seq::empty()
        }) + self.data.skip(self.pos)
    }

    /// At a word boundary: no fetched bit is left and no byte is owed.
    pub open spec fn word_aligned(self) -> bool {
        self.cnt == 0 && !self.pad
    }

    /// The reader once a bit read of `n` bits has taken them: from the
    /// fetched bits where they suffice, else after fetching as few whole
    /// words as make up the difference.
    pub open spec fn after_bits(self, n: nat) -> ReaderModel {
        if n <= self.cnt {
            ReaderModel {
                cnt: (self.cnt - n) as nat,
                buf: self.buf % pow2((self.cnt - n) as nat),
                ..self
            }
        } else {
            let k = (n - self.cnt + 15) / 16;
            let c = (self.cnt + 16 * k - n) as nat;
            ReaderModel {
                pos: self.word_pos() + 2 * k,
                cnt: c,
                buf: bits_val(self.rest_bits().skip(n as int).take(c as int)),
                pad: false,
                ..self
            }
        }
    }

    /// The reader once brought to the next word boundary.
    pub open spec fn aligned(self) -> ReaderModel {
        ReaderModel { pos: self.word_pos(), cnt: 0, buf: 0, pad: false, ..self }
    }

    /// How many bits at most are left to read, fetched or not.
    pub open spec fn budget(self) -> int {
        8 * (self.data.len() - self.pos) + self.cnt
    }

    /// The reader once a raw read of `n` bytes has taken them: the bits short
    /// of a byte boundary are dropped, a whole byte still held is taken
    /// first, and the remaining `direct` bytes come from the data, each odd
    /// count turning the word parity.
    pub open spec fn after_raw(self, n: nat) -> ReaderModel {
        let c8 = (self.cnt - self.cnt % 8) as nat;
        if n == 0 {
            ReaderModel { cnt: c8, buf: self.buf % pow2(c8), ..self }
        } else {
            let direct = n - if c8 == 8 { 1int } else { 0int };
            ReaderModel {
                pos: self.pos + direct,
                cnt: 0,
                buf: 0,
                pad: self.pad != (direct % 2 == 1),
                ..self
            }
        }
    }
}

/// Reads bit fields and raw bytes from LZXD data.
pub struct BitReader {
    data: Vec<u8>,
    pos: usize,
    bit_buffer: u64,
    bits_in_buffer: u16,
    extra_byte: bool,
}

impl View for BitReader {
    type V = ReaderModel;

    closed spec fn view(&self) -> ReaderModel {
        ReaderModel {
            data: self.data@,
            pos: self.pos as int,
            buf: self.bit_buffer as nat,
            cnt: self.bits_in_buffer as nat,
            pad: self.extra_byte,
        }
    }
}

impl BitReader {
    /// A reader at the start of `data`, which begins on a word boundary.
    pub fn new(data: Vec<u8>) -> (r: BitReader)
        ensures
            r@ == (ReaderModel { data: data@, pos: 0, buf: 0, cnt: 0, pad: false }),
            r@.wf(),
            r@.rest_bits() == words_bits(data@, 0),
    {
        let r = BitReader { data, pos: 0, bit_buffer: 0, bits_in_buffer: 0, extra_byte: false };
        proof {
            lemma2_to64();
            assert(bits_of(0, 0) + words_bits(data@, 0) =~= words_bits(data@, 0));
        }
        r
    }

    /// The fetched bits topped up with whole words until at least `n` are
    /// held, as `(buffer, count, next byte)`; nothing is fetched where `n`
    /// are held already.
    fn fill(&self, n: u16) -> (r: Result<(u64, u16, usize), Error>)
        requires
            self@.wf(),
            n <= 32,
        ensures
            match r {
                Ok((b, c, p)) => {
                    &&& n <= c < n + 16
                    &&& b < pow2(c as nat)
                    &&& p <= self@.data.len()
                    &&& 8 * p - c >= 8 * self@.pos - self@.cnt
                    &&& if n <= self@.cnt {
                        b == self@.buf && c == self@.cnt && p == self@.pos
                    } else {
                        &&& bits_of(b as nat, c as nat) + words_bits(self@.data, p as int)
                            == self@.rest_bits()
                        &&& (c - self@.cnt) % 16 == 0
                        &&& p == self@.word_pos() + (c - self@.cnt) / 8
                    }
                },
                Err(e) => e == Error::UnexpectedEof && n > self@.rest_bits().len(),
            },
    {
        let mut b = self.bit_buffer;
        let mut c = self.bits_in_buffer;
        let mut p = self.pos;
        if c >= n {
            return Ok((b, c, p));
        }
        if self.extra_byte {
            if p >= self.data.len() {
                proof {
                    lemma_bits_of_len(b as nat, c as nat);
                }
                return Err(Error::UnexpectedEof);
            }
            p = p + 1;
        }
        while c < n
            invariant
                n <= 32,
                self@.wf(),
                c < n + 16,
                self@.cnt <= c,
                b < pow2(c as nat),
                p <= self@.data.len(),
                8 * p - c >= 8 * self@.pos - self@.cnt,
                bits_of(b as nat, c as nat) + words_bits(self@.data, p as int)
                    == self@.rest_bits(),
                (c - self@.cnt) % 16 == 0,
                p == self@.word_pos() + (c - self@.cnt) / 8,
            decreases n + 16 - c,
        {
            if self.data.len() - p < 2 {
                proof {
                    lemma_bits_of_len(b as nat, c as nat);
                    assert(words_bits(self@.data, p as int) =~= Seq::<bool>::empty());
                }
                return Err(Error::UnexpectedEof);
            }
            let w = u16_from_le(self.data[p], self.data[p + 1]);
            proof {
                lemma2_to64();
                lemma_pow2_strictly_increases(c as nat, 32);
                lemma_bits_of_split(b as nat, w as nat, c as nat, 16);
                assert(b * 65536 + w < 0x1_0000_0000_0000) by (nonlinear_arith)
                    requires b < 0x1_0000_0000, w < 65536;
                lemma_pow2_adds(c as nat, 16);
                assert(b * 65536 + w < pow2((c + 16) as nat)) by (nonlinear_arith)
                    requires b + 1 <= pow2(c as nat), w < 65536,
                    pow2((c + 16) as nat) == pow2(c as nat) * 65536;
                assert(bits_of(b as nat, c as nat) + words_bits(self@.data, p as int)
                    =~= bits_of(b as nat, c as nat) + bits_of(w as nat, 16) + words_bits(self@.data, p + 2));
            }
            b = b * 65536 + w as u64;
            c = c + 16;
            p = p + 2;
        }
        Ok((b, c, p))
    }

    /// Takes the next `n` bits (at most 32), most significant first, as a
    /// number.
    pub fn read_bits(&mut self, n: u16) -> (r: Result<u32, Error>)
        requires
            old(self)@.wf(),
            n <= 32,
        ensures
            final(self)@.wf(),
            final(self)@.data == old(self)@.data,
            match r {
                Ok(v) => {
                    &&& n <= old(self)@.rest_bits().len()
                    &&& v as nat == bits_val(old(self)@.rest_bits().take(n as int))
                    &&& final(self)@.rest_bits() == old(self)@.rest_bits().skip(n as int)
                    &&& final(self)@.budget() <= old(self)@.budget() - n
                    &&& final(self)@ == old(self)@.after_bits(n as nat)
                },
                Err(e) => e == Error::UnexpectedEof && n > old(self)@.rest_bits().len(),
            },
    {
        let (b, c, p) = match self.fill(n) {
            Ok(t) => t,
            Err(e) => return Err(e),
        };
        let keep = c - n;
        let m = pow2_u64(keep);
        proof {
            lemma_pow2_pos(keep as nat);
        }
        let v = b / m;
        proof {
            lemma_bits_of_take_skip(b as nat, c as nat, n as nat);
            lemma_pow2_pos(keep as nat);
            lemma_bits_val_of(v as nat, n as nat);
            lemma_pow2_strictly_increases(n as nat, 33);
            lemma2_to64();
            lemma_bits_of_len(b as nat, c as nat);
            assert(v < pow2(32)) by {
                if n < 32 { lemma_pow2_strictly_increases(n as nat, 32); }
            }
            let old_rest = self@.rest_bits();
            if n <= self@.cnt {
                assert(old_rest.take(n as int) =~= bits_of(b as nat, c as nat).take(n as int));
                assert(old_rest.skip(n as int) =~= bits_of(b as nat, c as nat).skip(n as int)
                    + words_bits(self@.data, self@.word_pos()));
            } else {
                let rest = bits_of(b as nat, c as nat) + words_bits(self@.data, p as int);
                assert(rest.take(n as int) =~= bits_of(b as nat, c as nat).take(n as int));
                assert(rest.skip(n as int) =~= bits_of(b as nat, c as nat).skip(n as int)
                    + words_bits(self@.data, p as int));
                let kb = (b as nat) % pow2(keep as nat);
                lemma_bits_of_len(kb, keep as nat);
                assert(rest.skip(n as int).take(keep as int) =~= bits_of(kb, keep as nat));
                vstd::arithmetic::power2::lemma_pow2_pos(keep as nat);
                vstd::arithmetic::div_mod::lemma_mod_pos_bound(b as int, pow2(keep as nat) as int);
                lemma_bits_val_of(kb, keep as nat);
                assert((c - self@.cnt) / 16 == (n - self@.cnt + 15) / 16);
            }
        }
        if n > self.bits_in_buffer {
            self.extra_byte = false;
        }
        self.bit_buffer = b % m;
        self.bits_in_buffer = keep;
        self.pos = p;
        Ok(v as u32)
    }

    /// The next `n` bits (at most 32), most significant first, as a number,
    /// left in place.
    pub fn peek_bits(&self, n: u16) -> (r: Result<u32, Error>)
        requires
            self@.wf(),
            n <= 32,
        ensures
            match r {
                Ok(v) => {
                    &&& n <= self@.rest_bits().len()
                    &&& v as nat == bits_val(self@.rest_bits().take(n as int))
                },
                Err(e) => e == Error::UnexpectedEof && n > self@.rest_bits().len(),
            },
    {
        let (b, c, p) = match self.fill(n) {
            Ok(t) => t,
            Err(e) => return Err(e),
        };
        let keep = c - n;
        let m = pow2_u64(keep);
        proof {
            lemma_pow2_pos(keep as nat);
        }
        let v = b / m;
        proof {
            lemma_bits_of_take_skip(b as nat, c as nat, n as nat);
            lemma_pow2_pos(keep as nat);
            lemma_bits_val_of(v as nat, n as nat);
            lemma2_to64();
            lemma_bits_of_len(b as nat, c as nat);
            assert(v < pow2(32)) by {
                if n < 32 { lemma_pow2_strictly_increases(n as nat, 32); }
            }
            let old_rest = self@.rest_bits();
            if n <= self@.cnt {
                assert(old_rest.take(n as int) =~= bits_of(b as nat, c as nat).take(n as int));
            } else {
                let rest = bits_of(b as nat, c as nat) + words_bits(self@.data, p as int);
                assert(rest.take(n as int) =~= bits_of(b as nat, c as nat).take(n as int));
            }
        }
        Ok(v as u32)
    }
    /// Moves to the next word boundary: drops the bits left of the current
    /// word and skips the byte that an odd raw read left owing. Where the
    /// reader is already at a boundary nothing changes.
    pub fn align_to_16(&mut self) -> (r: Result<(), Error>)
        requires
            old(self)@.wf(),
        ensures
            final(self)@.wf(),
            old(self)@.word_aligned() ==> r is Ok && final(self)@ == old(self)@,
            match r {
                Ok(_) => {
                    &&& final(self)@ == old(self)@.aligned()
                    &&& final(self)@.word_aligned()
                    &&& final(self)@.rest_bits() == old(self)@.rest_bits().skip(
                        old(self)@.cnt as int,
                    )
                },
                Err(e) => e == Error::UnexpectedEof && old(self)@.pad && old(self)@.pos
                    >= old(self)@.data.len(),
            },
    {
        proof {
            lemma_bits_of_len(self@.buf, self@.cnt);
            lemma2_to64();
            assert(self@.rest_bits().skip(self@.cnt as int) =~= words_bits(
                self@.data,
                self@.word_pos(),
            ));
            assert(bits_of(0, 0) + words_bits(self@.data, self@.word_pos()) =~= words_bits(
                self@.data,
                self@.word_pos(),
            ));
        }
        if self.extra_byte {
            if self.pos >= self.data.len() {
                return Err(Error::UnexpectedEof);
            }
            self.pos = self.pos + 1;
            self.extra_byte = false;
        }
        self.bit_buffer = 0;
        self.bits_in_buffer = 0;
        Ok(())
    }

    /// Drops the fetched bits short of a byte boundary.
    fn align_to_8(&mut self)
        requires
            old(self)@.wf(),
        ensures
            final(self)@.wf(),
            final(self)@ == old(self)@.after_raw(0),
    {
        let keep = self.bits_in_buffer - self.bits_in_buffer % 8;
        let m = pow2_u64(keep);
        proof {
            lemma_pow2_pos(keep as nat);
        }
        self.bit_buffer = self.bit_buffer % m;
        self.bits_in_buffer = keep;
    }

    /// Takes the next `n` raw bytes: first to a byte boundary, then a whole
    /// byte still held, then straight from the data.
    pub fn read_bytes(&mut self, n: usize) -> (r: Result<Vec<u8>, Error>)
        requires
            old(self)@.wf(),
        ensures
            final(self)@.wf(),
            final(self)@.data == old(self)@.data,
            match r {
                Ok(v) => {
                    &&& n <= old(self)@.rest_bytes().len()
                    &&& v@ == old(self)@.rest_bytes().take(n as int)
                    &&& final(self)@ == old(self)@.after_raw(n as nat)
                    &&& final(self)@.rest_bytes() == old(self)@.rest_bytes().skip(n as int)
                },
                Err(e) => e == Error::UnexpectedEof && n > old(self)@.rest_bytes().len(),
            },
    {
        let ghost start = self@;
        self.align_to_8();
        let mut out: Vec<u8> = Vec::new();
        if n == 0 {
            proof {
                lemma2_to64();
                assert(start.cnt >= 8 ==> start.buf % 256 == (start.buf % pow2(8)) % 256);
                if start.cnt >= 8 {
                    vstd::arithmetic::div_mod::lemma_mod_mod(start.buf as int, 256, 1);
                }
                assert(self@.rest_bytes() =~= start.rest_bytes());
            }
            return Ok(out);
        }
        if self.bits_in_buffer == 8 {
            proof {
                lemma2_to64();
                vstd::arithmetic::div_mod::lemma_mod_mod(start.buf as int, 256, 1);
            }
            out.push(self.bit_buffer as u8);
            self.bit_buffer = 0;
            self.bits_in_buffer = 0;
        }
        let direct = n - out.len();
        if self.data.len() - self.pos < direct {
            return Err(Error::UnexpectedEof);
        }
        let ghost first = out@;
        let mut i: usize = 0;
        while i < direct
            invariant
                i <= direct,
                direct <= self.data.len() - self.pos,
                out@ == first + self.data@.subrange(self.pos as int, self.pos + i),
            decreases direct - i,
        {
            out.push(self.data[self.pos + i]);
            i = i + 1;
            proof {
                assert(out@ =~= first + self.data@.subrange(self.pos as int, self.pos + i));
            }
        }
        self.pos = self.pos + direct;
        if direct % 2 == 1 {
            self.extra_byte = !self.extra_byte;
        }
        proof {
            lemma2_to64();
            assert(out@ =~= start.rest_bytes().take(n as int));
            assert(self@.rest_bytes() =~= start.rest_bytes().skip(n as int));
        }
        Ok(out)
    }

    /// Takes the next two raw bytes as a little-endian word.
    pub fn read_u16_le(&mut self) -> (r: Result<u16, Error>)
        requires
            old(self)@.wf(),
        ensures
            final(self)@.wf(),
            final(self)@.data == old(self)@.data,
            match r {
                Ok(v) => {
                    &&& 2 <= old(self)@.rest_bytes().len()
                    &&& v as nat == le16(old(self)@.rest_bytes()[0], old(self)@.rest_bytes()[1])
                    &&& final(self)@ == old(self)@.after_raw(2)
                    &&& final(self)@.rest_bytes() == old(self)@.rest_bytes().skip(2)
                },
                Err(e) => e == Error::UnexpectedEof && 2 > old(self)@.rest_bytes().len(),
            },
    {
        let b = match self.read_bytes(2) {
            Ok(b) => b,
            Err(e) => return Err(e),
        };
        Ok(u16_from_le(b[0], b[1]))
    }

    /// Takes the next four raw bytes as a little-endian number.
    pub fn read_u32_le(&mut self) -> (r: Result<u32, Error>)
        requires
            old(self)@.wf(),
        ensures
            final(self)@.wf(),
            final(self)@.data == old(self)@.data,
            match r {
                Ok(v) => {
                    &&& 4 <= old(self)@.rest_bytes().len()
                    &&& v as nat == le32(old(self)@.rest_bytes().take(4))
                    &&& final(self)@ == old(self)@.after_raw(4)
                    &&& final(self)@.rest_bytes() == old(self)@.rest_bytes().skip(4)
                },
                Err(e) => e == Error::UnexpectedEof && 4 > old(self)@.rest_bytes().len(),
            },
    {
        let b = match self.read_bytes(4) {
            Ok(b) => b,
            Err(e) => return Err(e),
        };
        Ok(u32_from_le(b.as_slice()))
    }
}


/// What a `BitWriter` stands for: the bytes written, the bits not yet
/// making up a word (`cnt` of them, of value `buf`), and whether a raw write
/// left the output one byte off its word boundary.
pub ghost struct WriterModel {
    pub out: Seq<u8>,
    pub buf: nat,
    pub cnt: nat,
    pub extra: bool,
}

impl WriterModel {
    pub open spec fn wf(self) -> bool {
        &&& self.cnt < 16
        &&& self.buf < pow2(self.cnt)
        &&& self.extra ==> self.cnt == 0
        &&& self.extra == (self.out.len() % 2 == 1)
    }

    /// The bits written but not yet part of a whole word.
    pub open spec fn pending_bits(self) -> Seq<bool> {
        bits_of(self.buf, self.cnt)
    }

    /// At a word boundary: no pending bit and no byte owed.
    pub open spec fn word_aligned(self) -> bool {
        self.cnt == 0 && !self.extra
    }

    /// The zero byte that an odd raw write leaves owing, if any.
    pub open spec fn owed_byte(self) -> Seq<u8> {
        if self.extra {
            seq![0u8]
        } else {
            Seq::empty()
        }
    }

    /// The word that the pending bits, completed with zero bits, make, if any
    /// bit is pending.
    pub open spec fn padded_word(self) -> Seq<u8> {
        if self.cnt == 0 {
            Seq::empty()
        } else {
            bytes_of_bits(self.pending_bits() + zero_bits((16 - self.cnt) as nat))
        }
    }

    /// The writer once it has been brought to a word boundary.
    pub open spec fn aligned(self) -> WriterModel {
        WriterModel {
            out: self.out + self.padded_word() + self.owed_byte(),
            buf: 0,
            cnt: 0,
            extra: false,
        }
    }
}

/// Writes bit fields and raw bytes as LZXD data.
pub struct BitWriter {
    out: Vec<u8>,
    bit_buffer: u64,
    bits_in_buffer: u16,
    extra_byte: bool,
}

impl View for BitWriter {
    type V = WriterModel;

    closed spec fn view(&self) -> WriterModel {
        WriterModel {
            out: self.out@,
            buf: self.bit_buffer as nat,
            cnt: self.bits_in_buffer as nat,
            extra: self.extra_byte,
        }
    }
}

impl BitWriter {
    /// A writer with nothing written.
    pub fn new() -> (r: BitWriter)
        ensures
            r@ == (WriterModel { out: Seq::empty(), buf: 0, cnt: 0, extra: false }),
            r@.wf(),
    {
        proof {
            lemma2_to64();
        }
        BitWriter { out: Vec::new(), bit_buffer: 0, bits_in_buffer: 0, extra_byte: false }
    }

    /// The bytes written so far.
    pub fn bytes(&self) -> (r: &Vec<u8>)
        ensures
            r@ == self@.out,
    {
        &self.out
    }

    /// The bytes written, the writer given up.
    pub fn into_bytes(self) -> (r: Vec<u8>)
        ensures
            r@ == self@.out,
    {
        self.out
    }

    /// Writes the zero byte that an odd raw write left owing.
    fn fill_extra_byte(&mut self)
        requires
            old(self)@.wf(),
        ensures
            final(self)@ == (WriterModel {
                out: old(self)@.out + old(self)@.owed_byte(),
                extra: false,
                ..old(self)@
            }),
            final(self)@.wf(),
    {
        if self.extra_byte {
            self.out.push(0);
            self.extra_byte = false;
        }
        proof {
            assert(self@.out =~= old(self)@.out + old(self)@.owed_byte());
        }
    }

    /// Appends the `n` low bits of `v` (at most 32, and `v` must fit them),
    /// most significant first, after the byte a raw write left owing. Each
    /// word that the pending bits complete is written out.
    pub fn write_bits(&mut self, n: u16, v: u32)
        requires
            old(self)@.wf(),
            n <= 32,
            v < pow2(n as nat),
        ensures
            final(self)@.wf(),
            ({
                let all = old(self)@.pending_bits() + bits_of(v as nat, n as nat);
                &&& final(self)@.out == old(self)@.out + old(self)@.owed_byte() + bytes_of_bits(all)
                &&& final(self)@.pending_bits() == all.skip(all.len() - all.len() % 16)
                &&& !final(self)@.extra
            }),
    {
        let ghost all = self@.pending_bits() + bits_of(v as nat, n as nat);
        self.fill_extra_byte();
        let ghost out0 = self@.out;
        proof {
            lemma2_to64();
            lemma_pow2_strictly_increases(self@.cnt, 16);
            lemma_pow2_adds(self@.cnt, n as nat);
            lemma_pow2_strictly_increases((self@.cnt + n) as nat, 48);
            lemma_pow2_adds(16, 32);
            lemma_bits_of_split(self@.buf, v as nat, self@.cnt, n as nat);
            assert(self@.buf * pow2(n as nat) + v < pow2((self@.cnt + n) as nat)) by (nonlinear_arith)
                requires self@.buf + 1 <= pow2(self@.cnt), v < pow2(n as nat),
                pow2((self@.cnt + n) as nat) == pow2(self@.cnt) * pow2(n as nat);
            lemma_bits_of_len(self@.buf, self@.cnt);
            lemma_bits_of_len(v as nat, n as nat);
            assert(all.take(0) =~= Seq::<bool>::empty());
            assert(bytes_of_bits(all.take(0)) =~= Seq::<u8>::empty());
            assert(out0 =~= out0 + bytes_of_bits(all.take(0)));
            assert(all.skip(0) =~= all);
        }
        let m = pow2_u64(n);
        self.bit_buffer = self.bit_buffer * m + v as u64;
        self.bits_in_buffer = self.bits_in_buffer + n;
        let ghost mut e: int = 0;
        while self.bits_in_buffer >= 16
            invariant
                self.bits_in_buffer < 48,
                self@.buf < pow2(self@.cnt),
                !self.extra_byte,
                0 <= e,
                e % 16 == 0,
                e + self@.cnt == all.len(),
                self@.out == out0 + bytes_of_bits(all.take(e)),
                self@.pending_bits() == all.skip(e),
                self@.out.len() % 2 == 0,
            decreases self.bits_in_buffer,
        {
            let keep = self.bits_in_buffer - 16;
            let d = pow2_u64(keep);
            proof {
                lemma_pow2_pos(keep as nat);
            }
            let w = self.bit_buffer / d;
            proof {
                lemma2_to64();
                lemma_bits_of_take_skip(self@.buf, self@.cnt, 16);
                lemma_bits_val_of(w as nat, 16);
                let t = all.subrange(e, e + 16);
                assert(t =~= self@.pending_bits().take(16));
                lemma_bytes_of_word(t);
                assert(all.take(e + 16) =~= all.take(e) + t);
                lemma_bytes_of_bits_append(all.take(e), t);
                assert(all.skip(e + 16) =~= self@.pending_bits().skip(16));
            }
            let b = u16_to_le(w as u16);
            self.out.push(b[0]);
            self.out.push(b[1]);
            self.bit_buffer = self.bit_buffer % d;
            self.bits_in_buffer = keep;
            proof {
                e = e + 16;
                assert(self@.out =~= out0 + bytes_of_bits(all.take(e)));
            }
        }
        proof {
            assert(all =~= all.take(e) + all.skip(e));
            lemma_bytes_of_bits_append(all.take(e), all.skip(e));
            lemma_bits_of_len(self@.buf, self@.cnt);
            lemma_bytes_of_short(all.skip(e));
            assert(bytes_of_bits(all.skip(e)) =~= Seq::<u8>::empty());
            assert(self@.out =~= out0 + bytes_of_bits(all));
            assert(e == all.len() - all.len() % 16);
        }
    }

    /// Completes the pending bits to a word with zero bits.
    fn purge_bit_buffer(&mut self)
        requires
            old(self)@.wf(),
        ensures
            final(self)@ == (WriterModel {
                out: old(self)@.out + old(self)@.padded_word(),
                buf: 0,
                cnt: 0,
                ..old(self)@
            }),
            final(self)@.wf(),
    {
        if self.bits_in_buffer != 0 {
            let ghost pend = self@.pending_bits();
            proof {
                lemma2_to64();
                lemma_pow2_pos((16 - self@.cnt) as nat);
                lemma_bits_of_zero((16 - self@.cnt) as nat);
                lemma_bits_of_len(self@.buf, self@.cnt);
            }
            self.write_bits(16 - self.bits_in_buffer, 0);
            proof {
                lemma_bits_of_len(self@.buf, self@.cnt);
                assert(self@.cnt == 0);
                assert(self@.buf == 0);
                assert(self@.out =~= old(self)@.out + old(self)@.padded_word());
            }
        } else {
            proof {
                lemma2_to64();
                assert(self@.out =~= old(self)@.out + old(self)@.padded_word());
            }
        }
    }

    /// Moves to the next word boundary: completes the pending bits with zero
    /// bits, then writes the byte a raw write left owing. Where the writer
    /// is already at a boundary nothing changes.
    pub fn align_to_16(&mut self)
        requires
            old(self)@.wf(),
        ensures
            final(self)@ == old(self)@.aligned(),
            final(self)@.wf(),
            final(self)@.word_aligned(),
            final(self)@.out.len() % 2 == 0,
            old(self)@.word_aligned() ==> final(self)@ == old(self)@,
    {
        self.purge_bit_buffer();
        self.fill_extra_byte();
        proof {
            if old(self)@.word_aligned() {
                lemma2_to64();
                assert(old(self)@.buf == 0);
                assert(old(self)@.aligned().out =~= old(self)@.out);
            }
        }
    }

    /// Writes raw bytes: first the pending bits are completed to a word,
    /// then the bytes go out as they are; an odd count turns the word parity.
    pub fn write_bytes(&mut self, bytes: &[u8])
        requires
            old(self)@.wf(),
        ensures
            final(self)@ == (WriterModel {
                out: old(self)@.out + old(self)@.padded_word() + bytes@,
                buf: 0,
                cnt: 0,
                extra: old(self)@.extra != (bytes@.len() % 2 == 1),
            }),
            final(self)@.extra == (final(self)@.out.len() % 2 == 1),
            final(self)@.wf(),
    {
        self.purge_bit_buffer();
        let ghost out0 = self@.out;
        let mut i: usize = 0;
        while i < bytes.len()
            invariant
                i <= bytes@.len(),
                self@.out == out0 + bytes@.take(i as int),
                self.bit_buffer == 0,
                self.bits_in_buffer == 0,
                self.extra_byte == old(self).extra_byte,
            decreases bytes.len() - i,
        {
            self.out.push(bytes[i]);
            i = i + 1;
            proof {
                assert(self@.out =~= out0 + bytes@.take(i as int));
            }
        }
        if bytes.len() % 2 == 1 {
            self.extra_byte = !self.extra_byte;
        }
        proof {
            assert(bytes@.take(i as int) =~= bytes@);
            lemma2_to64();
        }
    }

    /// Writes a 16-bit number as two raw little-endian bytes.
    pub fn write_u16_le(&mut self, n: u16)
        requires
            old(self)@.wf(),
        ensures
            final(self)@ == (WriterModel {
                out: old(self)@.out + old(self)@.padded_word() + seq![(n % 256) as u8, (n / 256) as u8],
                buf: 0,
                cnt: 0,
                ..old(self)@
            }),
            final(self)@.wf(),
    {
        let b = u16_to_le(n);
        self.write_bytes(b.as_slice());
    }

    /// Writes a 32-bit number as four raw little-endian bytes.
    pub fn write_u32_le(&mut self, n: u32)
        requires
            old(self)@.wf(),
        ensures
            final(self)@ == (WriterModel {
                out: old(self)@.out + old(self)@.padded_word() + le32_bytes(n),
                buf: 0,
                cnt: 0,
                ..old(self)@
            }),
            final(self)@.wf(),
    {
        let b = u32_to_le(n);
        self.write_bytes(b.as_slice());
    }
}

/// A writer that started at a word boundary with the bytes `base` and has
/// since written the bits `h`.
pub open spec fn wrote_bits(w: WriterModel, base: Seq<u8>, h: Seq<bool>) -> bool {
    &&& w.wf()
    &&& w.out == base + bytes_of_bits(h)
    &&& w.pending_bits() == h.skip(h.len() - h.len() % 16)
    &&& !w.extra
}

/// `write_bits` keeps a writer's record of the bits written since a word
/// boundary: the new field's bits are appended.
#[verifier::rlimit(80)]
pub proof fn lemma_wrote_more_bits(w0: WriterModel, w1: WriterModel, base: Seq<u8>, h: Seq<bool>, b: Seq<bool>)
    requires
        wrote_bits(w0, base, h),
        w1.wf(),
        ({
            let all = w0.pending_bits() + b;
            &&& w1.out == w0.out + w0.owed_byte() + bytes_of_bits(all)
            &&& w1.pending_bits() == all.skip(all.len() - all.len() % 16)
            &&& !w1.extra
        }),
    ensures
        wrote_bits(w1, base, h + b),
{
    let k = h.len() - h.len() % 16;
    let p = h.skip(k);
    assert(h =~= h.take(k) + p);
    lemma_bytes_of_bits_append(h.take(k), p);
    lemma_bytes_of_short(p);
    assert(h + b =~= h.take(k) + (p + b));
    lemma_bytes_of_bits_append(h.take(k), p + b);
    assert(bytes_of_bits(p) =~= Seq::<u8>::empty());
    assert(w1.out =~= base + bytes_of_bits(h + b));
    let all = p + b;
    assert((h + b).skip((h + b).len() - (h + b).len() % 16) =~= all.skip(
        all.len() - all.len() % 16,
    ));
}

/// Aligning after bits written from a word boundary writes them out
/// completed with zero bits to a whole word.
pub proof fn lemma_wrote_then_aligned(w: WriterModel, base: Seq<u8>, h: Seq<bool>)
    requires
        wrote_bits(w, base, h),
        h.len() % 16 != 0,
    ensures
        w.aligned().out == base + bytes_of_bits(h + zero_bits((16 - h.len() % 16) as nat)),
{
    let k = h.len() - h.len() % 16;
    let p = h.skip(k);
    lemma_bits_of_len(w.buf, w.cnt);
    assert(h + zero_bits((16 - h.len() % 16) as nat) =~= h.take(k) + (p + zero_bits(
        (16 - h.len() % 16) as nat,
    )));
    lemma_bytes_of_bits_append(h.take(k), p + zero_bits((16 - h.len() % 16) as nat));
    assert(h =~= h.take(k) + p);
    lemma_bytes_of_bits_append(h.take(k), p);
    lemma_bytes_of_short(p);
    assert(bytes_of_bits(p) =~= Seq::<u8>::empty());
    assert(w.aligned().out =~= base + bytes_of_bits(h + zero_bits((16 - h.len() % 16) as nat)));
}


/// Bit fields written in order with `write_bits` on a new writer, then
/// aligned with `align_to_16`, read back in order with `read_bits` on a
/// `BitReader` over the bytes written (whose bits are `words_bits(out, 0)`),
/// give back the values written. A new writer has written no bits;
/// `lemma_wrote_more_bits` carries the record over each `write_bits` call.
pub proof fn lemma_written_fields_read_back(w: WriterModel, fields: Seq<(u16, u32)>)
    requires
        wrote_bits(w, Seq::empty(), fields_bits(fields)),
        fields_fit(fields),
    ensures
        read_fields(words_bits(w.aligned().out, 0), field_widths(fields)) == field_values(
            fields,
        ),
{
    let h = fields_bits(fields);
    lemma_bits_of_len(w.buf, w.cnt);
    if h.len() % 16 != 0 {
        lemma_wrote_then_aligned(w, Seq::empty(), h);
        assert(Seq::<u8>::empty() + bytes_of_bits(h + zero_bits((16 - h.len() % 16) as nat))
            =~= bytes_of_bits(h + zero_bits((16 - h.len() % 16) as nat)));
        lemma_bit_fields_round_trip(fields, (16 - h.len() % 16) as nat);
    } else {
        assert(w.cnt == 0);
        lemma2_to64();
        assert(w.padded_word() =~= Seq::<u8>::empty());
        assert(w.owed_byte() =~= Seq::<u8>::empty());
        assert(h + zero_bits(0) =~= h);
        assert(w.aligned().out =~= bytes_of_bits(h + zero_bits(0)));
        lemma_bit_fields_round_trip(fields, 0);
    }
}

/// Writing one more field appends its bits to those of the fields before.
pub proof fn lemma_fields_bits_push(fields: Seq<(u16, u32)>, f: (u16, u32))
    ensures
        fields_bits(fields.push(f)) == fields_bits(fields) + bits_of(f.1 as nat, f.0 as nat),
    decreases fields.len(),
{
    if fields.len() == 0 {
        assert(fields.push(f).skip(1) =~= Seq::<(u16, u32)>::empty());
        assert(fields.push(f)[0] == f);
        assert(fields_bits(fields.push(f).skip(1)) == Seq::<bool>::empty());
        assert(fields_bits(fields) == Seq::<bool>::empty());
        assert(fields_bits(fields.push(f)) =~= fields_bits(fields) + bits_of(f.1 as nat, f.0 as nat));
    } else {
        lemma_fields_bits_push(fields.skip(1), f);
        assert(fields.push(f).skip(1) =~= fields.skip(1).push(f));
        assert(fields.push(f)[0] == fields[0]);
        assert(fields_bits(fields.push(f)) =~= fields_bits(fields) + bits_of(f.1 as nat, f.0 as nat));
    }
}

/// Word alignment is idempotent: aligning a second time, on either side of
/// the stream, changes nothing.
pub proof fn lemma_align_idempotent(r: ReaderModel, w: WriterModel)
    requires
        r.wf(),
        w.wf(),
    ensures
        r.aligned().word_aligned(),
        r.aligned().aligned() == r.aligned(),
        w.aligned().word_aligned(),
        w.aligned().aligned() == w.aligned(),
{
    let wa = w.aligned();
    assert(wa.padded_word() =~= Seq::<u8>::empty());
    assert(wa.owed_byte() =~= Seq::<u8>::empty());
    assert(wa.aligned().out =~= wa.out);
}

} // verus!
