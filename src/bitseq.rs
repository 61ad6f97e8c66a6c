//! The mathematical model of LZXD's bit stream: bit strings read most
//! significant bit first, and the 16-bit little-endian words that carry them.

use vstd::arithmetic::div_mod::lemma_fundamental_div_mod;
use vstd::arithmetic::div_mod::lemma_fundamental_div_mod_converse;
use vstd::arithmetic::power2::lemma_pow2_pos;
use vstd::arithmetic::power2::lemma_pow2_unfold;
use vstd::arithmetic::power2::lemma_pow2_adds;
use vstd::arithmetic::power2::pow2;
use vstd::arithmetic::power2::lemma2_to64;
use vstd::prelude::*;

verus! {

/// The number whose binary digits are `s`, most significant digit first.
pub open spec fn bits_val(s: Seq<bool>) -> nat
    decreases s.len(),
{
    if s.len() == 0 {
        0
    } else {
        2 * bits_val(s.drop_last()) + (if s.last() { 1nat } else { 0nat })
    }
}

/// The `n` lowest binary digits of `v`, most significant digit first.
pub open spec fn bits_of(v: nat, n: nat) -> Seq<bool>
    decreases n,
{
    if n == 0 {
        Seq::empty()
    } else {
        bits_of(v / 2, (n - 1) as nat).push(v % 2 == 1)
    }
}

/// The value of the little-endian 16-bit word made of `lo` and `hi`.
pub open spec fn le16(lo: u8, hi: u8) -> nat {
    lo as nat + 256 * (hi as nat)
}

/// The bits that the 16-bit words of `data` from byte `p` on carry: each word
/// little-endian, its bits most significant first. A lone last byte carries none.
pub open spec fn words_bits(data: Seq<u8>, p: int) -> Seq<bool>
    decreases data.len() - p,
{
    if p < 0 || p + 2 > data.len() {
        Seq::empty()
    } else {
        bits_of(le16(data[p], data[p + 1]), 16) + words_bits(data, p + 2)
    }
}

/// The bytes of the 16-bit little-endian words that carry the bit string `s`,
/// sixteen bits to a word (bits past the last whole word are left out).
pub open spec fn bytes_of_bits(s: Seq<bool>) -> Seq<u8>
    decreases s.len(),
{
    if s.len() < 16 {
        Seq::empty()
    } else {
        let w = bits_val(s.take(16));
        seq![(w % 256) as u8, (w / 256) as u8] + bytes_of_bits(s.skip(16))
    }
}

/// `n` zero bits.
pub open spec fn zero_bits(n: nat) -> Seq<bool> {
    Seq::new(n, |i: int| false)
}

pub proof fn lemma_bits_of_len(v: nat, n: nat)
    ensures
        bits_of(v, n).len() == n,
    decreases n,
{
    if n > 0 {
        lemma_bits_of_len(v / 2, (n - 1) as nat);
    }
}

pub proof fn lemma_bits_val_bound(s: Seq<bool>)
    ensures
        bits_val(s) < pow2(s.len()),
    decreases s.len(),
{
    if s.len() > 0 {
        lemma_bits_val_bound(s.drop_last());
        lemma_pow2_unfold(s.len());
    } else {
        lemma_pow2_pos(0);
        lemma2_to64();
    }
}

/// Reading back the digits of a number that fits gives the number.
pub proof fn lemma_bits_val_of(v: nat, n: nat)
    requires
        v < pow2(n),
    ensures
        bits_val(bits_of(v, n)) == v,
    decreases n,
{
    if n == 0 {
        lemma2_to64();
    } else {
        lemma_pow2_unfold(n);
        lemma_bits_val_of(v / 2, (n - 1) as nat);
        assert(bits_of(v, n).drop_last() =~= bits_of(v / 2, (n - 1) as nat));
    }
}

/// Writing out the value of a bit string gives the string back.
pub proof fn lemma_bits_of_val(s: Seq<bool>)
    ensures
        bits_of(bits_val(s), s.len()) == s,
    decreases s.len(),
{
    if s.len() > 0 {
        let d = s.drop_last();
        lemma_bits_of_val(d);
        let b: nat = if s.last() { 1 } else { 0 };
        assert((2 * bits_val(d) + b) / 2 == bits_val(d));
        assert((2 * bits_val(d) + b) % 2 == b);
        assert(d.push(s.last()) =~= s);
    }
}

/// The digits of `a * 2^m + b`, where `b < 2^m`, are those of `a` followed by
/// the `m` digits of `b`.
pub proof fn lemma_bits_of_split(a: nat, b: nat, k: nat, m: nat)
    requires
        b < pow2(m),
    ensures
        bits_of(a * pow2(m) + b, k + m) == bits_of(a, k) + bits_of(b, m),
    decreases m,
{
    if m == 0 {
        lemma2_to64();
        assert(pow2(m) == 1);
        assert(b == 0);
        assert(a * pow2(m) + b == a) by (nonlinear_arith)
            requires pow2(m) == 1, b == 0;
        assert(k + m == k);
        assert(bits_of(b, 0) =~= Seq::<bool>::empty());
        assert(bits_of(a, k) + bits_of(b, 0) =~= bits_of(a, k));
    } else {
        let pm = pow2((m - 1) as nat);
        lemma_pow2_unfold(m);
        let x = a * pow2(m) + b;
        assert(a * pow2(m) == 2 * (a * pm)) by (nonlinear_arith)
            requires pow2(m) == 2 * pm;
        assert(x / 2 == a * pm + b / 2);
        assert(x % 2 == b % 2);
        lemma_bits_of_split(a, b / 2, k, (m - 1) as nat);
        assert((k + m - 1) as nat == k + (m - 1) as nat);
        assert(bits_of(x, k + m) =~= bits_of(a, k) + bits_of(b, m));
    }
}

/// The first `n` digits of an `c`-digit number `x`, and the rest.
pub proof fn lemma_bits_of_take_skip(x: nat, c: nat, n: nat)
    requires
        x < pow2(c),
        n <= c,
    ensures
        x / pow2((c - n) as nat) < pow2(n),
        bits_of(x, c).take(n as int) == bits_of(x / pow2((c - n) as nat), n),
        bits_of(x, c).skip(n as int) == bits_of(x % pow2((c - n) as nat), (c - n) as nat),
{
    let m = (c - n) as nat;
    let p = pow2(m);
    lemma_pow2_pos(m);
    lemma_pow2_adds(n, m);
    lemma_fundamental_div_mod(x as int, p as int);
    let a = x / p;
    let b = x % p;
    assert(x == a * p + b) by (nonlinear_arith)
        requires x == p * (x / p) + (x % p), a == x / p, b == x % p;
    if a >= pow2(n) {
        assert(a * p >= pow2(n) * p) by (nonlinear_arith)
            requires a >= pow2(n), p > 0;
    }
    lemma_bits_of_split(a, b, n, m);
    lemma_bits_of_len(a, n);
    lemma_bits_of_len(b, m);
    assert(n + m == c);
    assert((bits_of(a, n) + bits_of(b, m)).take(n as int) =~= bits_of(a, n));
    assert((bits_of(a, n) + bits_of(b, m)).skip(n as int) =~= bits_of(b, m));
}

/// Counting words from byte `p` is counting them in what follows `p`.
pub proof fn lemma_words_bits_skip(data: Seq<u8>, p: int)
    requires
        0 <= p <= data.len(),
    ensures
        words_bits(data, p) == words_bits(data.skip(p), 0),
    decreases data.len() - p,
{
    let ds = data.skip(p);
    if p + 2 <= data.len() {
        lemma_words_bits_skip(data, p + 2);
        lemma_words_bits_skip(ds, 2);
        assert(ds.skip(2) =~= data.skip(p + 2));
        assert(ds[0] == data[p] && ds[1] == data[p + 1]);
    }
}

/// The words that carry a whole number of words' worth of bits carry exactly
/// those bits.
pub proof fn lemma_words_of_bytes(s: Seq<bool>)
    requires
        s.len() % 16 == 0,
    ensures
        words_bits(bytes_of_bits(s), 0) == s,
    decreases s.len(),
{
    if s.len() == 0 {
        assert(words_bits(bytes_of_bits(s), 0) =~= s);
    } else {
        let t = s.take(16);
        let w = bits_val(t);
        let b = bytes_of_bits(s);
        let r = bytes_of_bits(s.skip(16));
        lemma_bits_val_bound(t);
        lemma2_to64();
        lemma_bits_of_val(t);
        lemma_words_of_bytes(s.skip(16));
        assert(b[0] == (w % 256) as u8 && b[1] == (w / 256) as u8);
        assert(le16(b[0], b[1]) == w);
        lemma_words_bits_skip(b, 2);
        assert(b.skip(2) =~= r);
        assert(t + s.skip(16) =~= s);
    }
}

/// Words that carry a whole number of words' worth of bits, followed by more
/// bytes, carry those bits followed by what the bytes after them carry.
pub proof fn lemma_words_of_bytes_then(x: Seq<bool>, y: Seq<u8>)
    requires
        x.len() % 16 == 0,
    ensures
        words_bits(bytes_of_bits(x) + y, 0) == x + words_bits(y, 0),
    decreases x.len(),
{
    if x.len() == 0 {
        assert(bytes_of_bits(x) + y =~= y);
        assert(x + words_bits(y, 0) =~= words_bits(y, 0));
    } else {
        let t = x.take(16);
        let w = bits_val(t);
        let b = bytes_of_bits(x) + y;
        let r = bytes_of_bits(x.skip(16)) + y;
        lemma_bits_val_bound(t);
        lemma2_to64();
        lemma_bits_of_val(t);
        lemma_words_of_bytes_then(x.skip(16), y);
        assert(b[0] == (w % 256) as u8 && b[1] == (w / 256) as u8);
        assert(le16(b[0], b[1]) == w);
        lemma_words_bits_skip(b, 2);
        assert(b.skip(2) =~= r);
        assert(x =~= t + x.skip(16));
        assert(x + words_bits(y, 0) =~= t + (x.skip(16) + words_bits(y, 0)));
    }
}

pub proof fn lemma_bytes_of_bits_len(x: Seq<bool>)
    ensures
        bytes_of_bits(x).len() == 2 * (x.len() / 16),
    decreases x.len(),
{
    if x.len() >= 16 {
        lemma_bytes_of_bits_len(x.skip(16));
    }
}

/// The bits that writing the fields `(width, value)` of `fields` in turn appends.
pub open spec fn fields_bits(fields: Seq<(u16, u32)>) -> Seq<bool>
    decreases fields.len(),
{
    if fields.len() == 0 {
        Seq::empty()
    } else {
        bits_of(fields[0].1 as nat, fields[0].0 as nat) + fields_bits(fields.skip(1))
    }
}

/// The values that reading fields of the widths `widths` in turn from `bits` gives.
pub open spec fn read_fields(bits: Seq<bool>, widths: Seq<nat>) -> Seq<nat>
    decreases widths.len(),
{
    if widths.len() == 0 {
        Seq::empty()
    } else {
        seq![bits_val(bits.take(widths[0] as int))] + read_fields(
            bits.skip(widths[0] as int),
            widths.skip(1),
        )
    }
}

pub open spec fn field_widths(fields: Seq<(u16, u32)>) -> Seq<nat> {
    fields.map_values(|f: (u16, u32)| f.0 as nat)
}

pub open spec fn field_values(fields: Seq<(u16, u32)>) -> Seq<nat> {
    fields.map_values(|f: (u16, u32)| f.1 as nat)
}

/// Each field fits its width, and the width is one that a single read or
/// write takes.
pub open spec fn fields_fit(fields: Seq<(u16, u32)>) -> bool {
    forall|i: int|
        0 <= i < fields.len() ==> 1 <= #[trigger] fields[i].0 <= 32 && fields[i].1 < pow2(
            fields[i].0 as nat,
        )
}

proof fn lemma_read_fields_prefix(fields: Seq<(u16, u32)>, tail: Seq<bool>)
    requires
        fields_fit(fields),
    ensures
        read_fields(fields_bits(fields) + tail, field_widths(fields)) == field_values(fields),
    decreases fields.len(),
{
    let ws = field_widths(fields);
    let vs = field_values(fields);
    if fields.len() == 0 {
        assert(vs =~= Seq::<nat>::empty());
    } else {
        let f = fields[0];
        let rest = fields.skip(1);
        let head = bits_of(f.1 as nat, f.0 as nat);
        let all = fields_bits(fields) + tail;
        assert(fields_fit(rest)) by {
            assert forall|i: int| 0 <= i < rest.len() implies 1 <= #[trigger] rest[i].0 <= 32
                && rest[i].1 < pow2(rest[i].0 as nat) by {
                assert(rest[i] == fields[i + 1]);
            }
        }
        lemma_read_fields_prefix(rest, tail);
        lemma_bits_of_len(f.1 as nat, f.0 as nat);
        lemma_bits_val_of(f.1 as nat, f.0 as nat);
        assert(all =~= head + (fields_bits(rest) + tail));
        assert(all.take(ws[0] as int) =~= head);
        assert(all.skip(ws[0] as int) =~= fields_bits(rest) + tail);
        assert(ws.skip(1) =~= field_widths(rest));
        assert(vs =~= seq![f.1 as nat] + field_values(rest));
    }
}

/// Bit fields written in order, the last word completed with zero bits, read
/// back in order with the same widths from the words written, give back the
/// values written.
pub proof fn lemma_bit_fields_round_trip(fields: Seq<(u16, u32)>, pad: nat)
    requires
        fields_fit(fields),
        (fields_bits(fields).len() + pad) % 16 == 0,
    ensures
        read_fields(
            words_bits(bytes_of_bits(fields_bits(fields) + zero_bits(pad)), 0),
            field_widths(fields),
        ) == field_values(fields),
{
    lemma_words_of_bytes(fields_bits(fields) + zero_bits(pad));
    lemma_read_fields_prefix(fields, zero_bits(pad));
}

pub proof fn lemma_bits_of_zero(n: nat)
    ensures
        bits_of(0, n) == zero_bits(n),
    decreases n,
{
    if n > 0 {
        lemma_bits_of_zero((n - 1) as nat);
        assert(bits_of(0, n) =~= zero_bits(n));
    } else {
        assert(bits_of(0, n) =~= zero_bits(n));
    }
}

/// The bytes of two bit strings, the first a whole number of words, are
/// the bytes of each in turn.
pub proof fn lemma_bytes_of_bits_append(a: Seq<bool>, b: Seq<bool>)
    requires
        a.len() % 16 == 0,
    ensures
        bytes_of_bits(a + b) == bytes_of_bits(a) + bytes_of_bits(b),
    decreases a.len(),
{
    if a.len() == 0 {
        assert(a + b =~= b);
        assert(bytes_of_bits(a) + bytes_of_bits(b) =~= bytes_of_bits(b));
    } else {
        lemma_bytes_of_bits_append(a.skip(16), b);
        assert((a + b).take(16) =~= a.take(16));
        assert((a + b).skip(16) =~= a.skip(16) + b);
    }
}

/// The bytes of a single word's bits.
pub proof fn lemma_bytes_of_word(t: Seq<bool>)
    requires
        t.len() == 16,
    ensures
        bytes_of_bits(t) == seq![(bits_val(t) % 256) as u8, (bits_val(t) / 256) as u8],
{
    assert(t.take(16) =~= t);
    assert(bytes_of_bits(t.skip(16)) =~= Seq::<u8>::empty());
    assert(bytes_of_bits(t) =~= seq![(bits_val(t) % 256) as u8, (bits_val(t) / 256) as u8]);
}

/// Bits short of a word make no byte.
pub proof fn lemma_bytes_of_short(t: Seq<bool>)
    requires
        t.len() < 16,
    ensures
        bytes_of_bits(t) == Seq::<u8>::empty(),
{
}

} // verus!
