//! Bit streams, least significant bit of each byte first.
//!
//! A stream is modelled as a `Seq<bool>`. Writers grow the sequence at its
//! end; readers take bits off its front.
use vstd::prelude::*;
use vstd::arithmetic::power2::{pow2, lemma_pow2_pos, lemma_pow2_unfold, lemma_pow2_strictly_increases, lemma2_to64};
use crate::error::{Error, Result};

verus! {

/// One or zero.
pub open spec fn bit(b: bool) -> nat {
    if b {
        1
    } else {
        0
    }
}

/// The low `k` bits of `v`, least significant first.
pub open spec fn bits_of(v: nat, k: nat) -> Seq<bool>
    decreases k,
{
    if k == 0 {
        Seq::empty()
    } else {
        seq![v % 2 == 1] + bits_of(v / 2, (k - 1) as nat)
    }
}

/// The number whose bits, least significant first, are `s`.
pub open spec fn value_of(s: Seq<bool>) -> nat
    decreases s.len(),
{
    if s.len() == 0 {
        0
    } else {
        bit(s[0]) + 2 * value_of(s.drop_first())
    }
}

/// The bits of a byte string.
pub open spec fn byte_bits(bytes: Seq<u8>) -> Seq<bool>
    decreases bytes.len(),
{
    if bytes.len() == 0 {
        Seq::empty()
    } else {
        bits_of(bytes[0] as nat, 8) + byte_bits(bytes.drop_first())
    }
}

/// `s` packed into bytes; the last byte is filled up with zero bits.
pub open spec fn pack_bits(s: Seq<bool>) -> Seq<u8>
    decreases s.len(),
{
    if s.len() == 0 {
        Seq::empty()
    } else if s.len() <= 8 {
        seq![value_of(s) as u8]
    } else {
        seq![value_of(s.take(8)) as u8] + pack_bits(s.skip(8))
    }
}

/// `n` zero bits.
pub open spec fn zeros(n: nat) -> Seq<bool> {
    Seq::new(n, |i: int| false)
}

/// `n` one bits followed by a zero bit.
pub open spec fn unary(n: nat) -> Seq<bool> {
    Seq::new(n, |i: int| true).push(false)
}

/// `bits_of(v, k)` has `k` bits.
pub proof fn lemma_bits_len(v: nat, k: nat)
    ensures
        bits_of(v, k).len() == k,
    decreases k,
{
    if k > 0 {
        lemma_bits_len(v / 2, (k - 1) as nat);
    }
}

/// `value_of` undoes `bits_of` on what `k` bits can hold.
pub proof fn lemma_value_of_bits(v: nat, k: nat)
    requires
        v < pow2(k),
    ensures
        bits_of(v, k).len() == k,
        value_of(bits_of(v, k)) == v,
    decreases k,
{
    lemma2_to64();
    if k > 0 {
        lemma_pow2_unfold(k);
        lemma_value_of_bits(v / 2, (k - 1) as nat);
        assert(bits_of(v, k).drop_first() =~= bits_of(v / 2, (k - 1) as nat));
    }
}

/// `bits_of` undoes `value_of`.
pub proof fn lemma_bits_of_value(s: Seq<bool>)
    ensures
        value_of(s) < pow2(s.len()),
        bits_of(value_of(s), s.len()) == s,
    decreases s.len(),
{
    lemma2_to64();
    if s.len() > 0 {
        let t = s.drop_first();
        lemma_bits_of_value(t);
        lemma_pow2_unfold(s.len());
        assert(value_of(s) / 2 == value_of(t));
        assert((value_of(s) % 2 == 1) == s[0]);
        assert(seq![s[0]] + t =~= s);
    }
}

/// One more high bit is one more bit at the end.
pub proof fn lemma_bits_push(v: nat, k: nat, b: bool)
    requires
        v < pow2(k),
    ensures
        bits_of(v + bit(b) * pow2(k), k + 1) == bits_of(v, k).push(b),
        v + bit(b) * pow2(k) < pow2(k + 1),
    decreases k,
{
    lemma2_to64();
    lemma_pow2_unfold(k + 1);
    let w = v + bit(b) * pow2(k);
    if k == 0 {
        assert(bits_of(w, 1) =~= seq![b]) by {
            reveal_with_fuel(bits_of, 2);
        }
        assert(bits_of(v, 0).push(b) =~= seq![b]);
    } else {
        lemma_pow2_unfold(k);
        lemma_bits_push(v / 2, (k - 1) as nat, b);
        let half = pow2((k - 1) as nat);
        assert(w / 2 == v / 2 + bit(b) * half && w % 2 == v % 2) by {
            assert(bit(b) * pow2(k) == 2 * (bit(b) * half)) by (nonlinear_arith)
                requires
                    pow2(k) == 2 * half,
            ;
        }
        assert(bits_of(w, k + 1) =~= seq![w % 2 == 1] + bits_of(w / 2, k));
        assert(bits_of(v, k).push(b) =~= seq![v % 2 == 1] + bits_of(v / 2, (k - 1) as nat).push(b));
    }
}

/// The value of a stream with one more bit at its end.
pub proof fn lemma_value_push(s: Seq<bool>, b: bool)
    ensures
        value_of(s.push(b)) == value_of(s) + bit(b) * pow2(s.len()),
    decreases s.len(),
{
    lemma_bits_of_value(s);
    lemma_bits_push(value_of(s), s.len(), b);
    lemma_value_of_bits(value_of(s) + bit(b) * pow2(s.len()), s.len() + 1);
}

/// Zero bits at the end add nothing.
pub proof fn lemma_value_zeros(s: Seq<bool>, n: nat)
    ensures
        value_of(s + zeros(n)) == value_of(s),
    decreases n,
{
    if n == 0 {
        assert(s + zeros(0) =~= s);
    } else {
        lemma_value_zeros(s, (n - 1) as nat);
        assert(s + zeros(n) =~= (s + zeros((n - 1) as nat)).push(false));
        lemma_value_push(s + zeros((n - 1) as nat), false);
        assert(bit(false) * pow2((s + zeros((n - 1) as nat)).len()) == 0) by (nonlinear_arith)
            requires
                bit(false) == 0,
        ;
    }
}

/// The bits of a longer byte string.
pub proof fn lemma_byte_bits_push(bytes: Seq<u8>, b: u8)
    ensures
        byte_bits(bytes.push(b)) == byte_bits(bytes) + bits_of(b as nat, 8),
    decreases bytes.len(),
{
    if bytes.len() == 0 {
        assert(bytes.push(b).drop_first() =~= Seq::empty());
        assert(byte_bits(bytes.push(b)) =~= bits_of(b as nat, 8) + byte_bits(Seq::empty()));
        assert(byte_bits(bytes.push(b)) =~= byte_bits(bytes) + bits_of(b as nat, 8));
    } else {
        lemma_byte_bits_push(bytes.drop_first(), b);
        assert(bytes.push(b).drop_first() =~= bytes.drop_first().push(b));
        assert(byte_bits(bytes.push(b)) =~= byte_bits(bytes) + bits_of(b as nat, 8));
    }
}

/// A byte string is eight times as many bits.
pub proof fn lemma_byte_bits_len(bytes: Seq<u8>)
    ensures
        byte_bits(bytes).len() == 8 * bytes.len(),
    decreases bytes.len(),
{
    if bytes.len() > 0 {
        lemma_bits_len(bytes[0] as nat, 8);
        lemma_byte_bits_len(bytes.drop_first());
    }
}

/// Packing whole bytes followed by a short tail.
pub proof fn lemma_pack_bytes(bytes: Seq<u8>, t: Seq<bool>)
    requires
        t.len() <= 8,
    ensures
        pack_bits(byte_bits(bytes) + t) == bytes + pack_bits(t),
    decreases bytes.len(),
{
    lemma2_to64();
    if bytes.len() == 0 {
        assert(byte_bits(bytes) + t =~= t);
        assert(bytes + pack_bits(t) =~= pack_bits(t));
    } else {
        let rest = bytes.drop_first();
        let s = byte_bits(bytes) + t;
        lemma_value_of_bits(bytes[0] as nat, 8);
        lemma_byte_bits_len(rest);
        lemma_pack_bytes(rest, t);
        assert(s.take(8) =~= bits_of(bytes[0] as nat, 8));
        assert(s.skip(8) =~= byte_bits(rest) + t);
        if s.len() <= 8 {
            assert(s =~= s.take(8));
            assert(rest =~= Seq::empty());
            assert(t =~= Seq::empty());
            assert(bytes + pack_bits(t) =~= seq![bytes[0]]);
        } else {
            assert(bytes + pack_bits(t) =~= seq![bytes[0]] + (rest + pack_bits(t)));
        }
    }
}

/// Unpacking gives back the packed bits, filled up to a whole byte.
pub proof fn lemma_unpack(s: Seq<bool>)
    ensures
        byte_bits(pack_bits(s)) == s + zeros(((8 - s.len() % 8) % 8) as nat),
        pack_bits(s).len() == (s.len() + 7) / 8,
    decreases s.len(),
{
    lemma2_to64();
    if s.len() == 0 {
        assert(byte_bits(pack_bits(s)) =~= s + zeros(0));
    } else if s.len() <= 8 {
        let pad = (8 - s.len()) as nat;
        let full = s + zeros(pad);
        lemma_value_zeros(s, pad);
        lemma_bits_of_value(full);
        assert(full.len() == 8);
        assert(byte_bits(seq![value_of(s) as u8]) =~= bits_of(value_of(full), 8)) by {
            reveal_with_fuel(byte_bits, 2);
            assert(seq![value_of(s) as u8].drop_first() =~= Seq::empty());
        }
    } else {
        lemma_unpack(s.skip(8));
        lemma_bits_of_value(s.take(8));
        let packed = pack_bits(s);
        assert(packed.drop_first() =~= pack_bits(s.skip(8)));
        assert(byte_bits(packed) =~= s.take(8) + byte_bits(pack_bits(s.skip(8))));
        assert(byte_bits(packed) =~= s + zeros(((8 - s.len() % 8) % 8) as nat));
    }
}

/// A bit stream under construction.
#[derive(Debug)]
pub struct BitWriter {
    bytes: Vec<u8>,
    acc: u8,
    fill: u8,
    weight: u16,
}

impl View for BitWriter {
    type V = Seq<bool>;

    closed spec fn view(&self) -> Seq<bool> {
        byte_bits(self.bytes@) + bits_of(self.acc as nat, self.fill as nat)
    }
}

impl BitWriter {
    /// Fewer than eight bits wait to be flushed.
    pub closed spec fn wf(&self) -> bool {
        &&& self.fill < 8
        &&& self.weight == pow2(self.fill as nat)
        &&& self.acc < self.weight
    }

    /// The empty stream.
    pub fn new() -> (w: BitWriter)
        ensures
            w.wf(),
            w@ == Seq::<bool>::empty(),
    {
        proof {
            lemma2_to64();
        }
        let w = BitWriter { bytes: Vec::new(), acc: 0, fill: 0, weight: 1 };
        assert(w@ =~= Seq::<bool>::empty());
        w
    }

    /// Appends one bit.
    pub fn write_bit(&mut self, b: bool)
        requires
            old(self).wf(),
        ensures
            final(self).wf(),
            final(self)@ == old(self)@.push(b),
    {
        proof {
            lemma2_to64();
            lemma_bits_push(self.acc as nat, self.fill as nat, b);
            lemma_pow2_unfold((self.fill + 1) as nat);
            lemma_pow2_pos(self.fill as nat);
            if self.fill < 7 {
                lemma_pow2_strictly_increases(self.fill as nat, 7);
                lemma_pow2_strictly_increases((self.fill + 1) as nat, 8);
            }
        }
        if b {
            self.acc = (self.acc as u16 + self.weight) as u8;
        }
        self.fill = self.fill + 1;
        self.weight = self.weight * 2;
        if self.fill == 8 {
            proof {
                lemma_byte_bits_push(self.bytes@, self.acc);
            }
            self.bytes.push(self.acc);
            self.acc = 0;
            self.fill = 0;
            self.weight = 1;
        }
        assert(self@ =~= old(self)@.push(b));
    }

    /// Appends the low `n` bits of `value`, least significant first.
    pub fn write_bits(&mut self, value: u64, n: u32)
        requires
            old(self).wf(),
        ensures
            final(self).wf(),
            final(self)@ == old(self)@ + bits_of(value as nat, n as nat),
    {
        let mut rest: u64 = value;
        let mut left: u32 = n;
        assert(self@ + bits_of(value as nat, n as nat) =~= old(self)@ + bits_of(value as nat, n as nat));
        while left > 0
            invariant
                self.wf(),
                left <= n,
                self@ + bits_of(rest as nat, left as nat) == old(self)@ + bits_of(value as nat, n as nat),
            decreases left,
        {
            let ghost before = self@;
            self.write_bit(rest % 2 == 1);
            assert(self@ + bits_of((rest / 2) as nat, (left - 1) as nat) =~= before + bits_of(rest as nat, left as nat));
            rest = rest / 2;
            left = left - 1;
        }
        assert(self@ + bits_of(rest as nat, 0) =~= self@);
    }

    /// Appends `n` one bits and a zero bit.
    pub fn write_unary(&mut self, n: u32)
        requires
            old(self).wf(),
        ensures
            final(self).wf(),
            final(self)@ == old(self)@ + unary(n as nat),
    {
        let mut i: u32 = 0;
        while i < n
            invariant
                self.wf(),
                i <= n,
                self@ =~= old(self)@ + Seq::new(i as nat, |k: int| true),
            decreases n - i,
        {
            self.write_bit(true);
            i = i + 1;
        }
        self.write_bit(false);
        assert(self@ =~= old(self)@ + unary(n as nat));
    }

    /// Whether nothing has been written.
    pub fn is_empty(&self) -> (r: bool)
        requires
            self.wf(),
        ensures
            r == (self@.len() == 0),
    {
        proof {
            lemma_byte_bits_len(self.bytes@);
            lemma_bits_len(self.acc as nat, self.fill as nat);
        }
        self.bytes.len() == 0 && self.fill == 0
    }

    /// The packed bytes; zero bits fill the last one.
    pub fn finish(self) -> (r: Vec<u8>)
        requires
            self.wf(),
        ensures
            r@ == pack_bits(self@),
    {
        let BitWriter { mut bytes, acc, fill, weight } = self;
        proof {
            lemma_bits_len(acc as nat, fill as nat);
            lemma_pack_bytes(bytes@, bits_of(acc as nat, fill as nat));
            lemma_value_of_bits(acc as nat, fill as nat);
        }
        let ghost before = bytes@;
        if fill > 0 {
            bytes.push(acc);
            assert(bytes@ =~= before + seq![acc]);
        } else {
            assert(bytes@ =~= before + Seq::empty());
        }
        bytes
    }
}

/// A bit stream being read.
#[derive(Debug)]
pub struct BitReader<'a> {
    data: &'a [u8],
    next: usize,
    cur: u8,
    left: u8,
}

impl<'a> View for BitReader<'a> {
    type V = Seq<bool>;

    closed spec fn view(&self) -> Seq<bool> {
        bits_of(self.cur as nat, self.left as nat) + byte_bits(self.data@.skip(self.next as int))
    }
}

impl<'a> BitReader<'a> {
    /// The bytes the reader was made over.
    pub closed spec fn source(&self) -> Seq<u8> {
        self.data@
    }

    /// The position lies inside the source.
    pub closed spec fn wf(&self) -> bool {
        &&& self.next <= self.data@.len()
        &&& self.left <= 8
        &&& self.left > 0 ==> self.next > 0
    }

    /// A reader at the first bit of `data`.
    pub fn new(data: &'a [u8]) -> (r: BitReader<'a>)
        ensures
            r.wf(),
            r.source() == data@,
            r@ == byte_bits(data@),
    {
        let r = BitReader { data, next: 0, cur: 0, left: 0 };
        assert(data@.skip(0) =~= data@);
        assert(r@ =~= byte_bits(data@));
        r
    }

    /// Takes one bit off the front.
    pub fn get_bit(&mut self) -> (r: Result<bool>)
        requires
            old(self).wf(),
        ensures
            final(self).wf(),
            final(self).source() == old(self).source(),
            old(self)@.len() == 0 ==> r == Err::<bool, Error>(Error::Truncated) && final(self)@ == old(self)@,
            old(self)@.len() > 0 ==> r == Ok::<bool, Error>(old(self)@[0]) && final(self)@ == old(self)@.drop_first(),
    {
        proof {
            lemma_bits_len(self.cur as nat, self.left as nat);
            lemma_byte_bits_len(self.data@.skip(self.next as int));
        }
        if self.left == 0 {
            if self.next >= self.data.len() {
                assert(self@ =~= Seq::<bool>::empty());
                return Err(Error::Truncated);
            }
            let ghost tail = self.data@.skip(self.next as int);
            self.cur = self.data[self.next];
            self.next = self.next + 1;
            self.left = 8;
            assert(tail.drop_first() =~= self.data@.skip(self.next as int));
            assert(self@ =~= old(self)@);
        }
        let b = self.cur % 2 == 1;
        let ghost before = self@;
        assert(before =~= seq![b] + (bits_of((self.cur / 2) as nat, (self.left - 1) as nat) + byte_bits(
            self.data@.skip(self.next as int),
        )));
        self.cur = self.cur / 2;
        self.left = self.left - 1;
        assert(self@ =~= before.drop_first());
        Ok(b)
    }

    /// Takes `n` bits off the front as a number, least significant bit first.
    /// Bits past the thirty-second are taken and dropped. A stream that is
    /// too short is emptied.
    pub fn get_bits(&mut self, n: u32) -> (r: Result<u32>)
        requires
            old(self).wf(),
        ensures
            final(self).wf(),
            final(self).source() == old(self).source(),
            old(self)@.len() < n ==> r == Err::<u32, Error>(Error::Truncated) && final(self)@ == Seq::<bool>::empty(),
            old(self)@.len() >= n ==> {
                &&& r is Ok
                &&& r->Ok_0 == value_of(old(self)@.take(if n <= 32 { n as int } else { 32 }))
                &&& final(self)@ == old(self)@.skip(n as int)
            },
    {
        let mut value: u64 = 0;
        let mut weight: u64 = 1;
        let mut i: u32 = 0;
        proof {
            lemma2_to64();
            assert(self@.skip(0) =~= self@);
        }
        while i < n
            invariant
                self.wf(),
                self.source() == old(self).source(),
                i <= n,
                i <= old(self)@.len(),
                self@ == old(self)@.skip(i as int),
                value == value_of(old(self)@.take(if i <= 32 { i as int } else { 32 })),
                i < 32 ==> weight == pow2(i as nat),
                i >= 32 ==> weight == 0,
                value < 0x1_0000_0000,
            decreases n - i,
        {
            let ghost s = old(self)@;
            match self.get_bit() {
                Err(e) => {
                    assert(self@ =~= Seq::<bool>::empty());
                    return Err(e);
                }
                Ok(b) => {
                    assert(s.skip(i as int).drop_first() =~= s.skip(i + 1));
                    if i < 32 {
                        proof {
                            lemma2_to64();
                            lemma_bits_of_value(s.take(i as int));
                            lemma_value_push(s.take(i as int), b);
                            assert(s.take(i as int).push(b) =~= s.take(i + 1));
                            lemma_pow2_unfold((i + 1) as nat);
                            if i < 31 {
                                lemma_pow2_strictly_increases(i as nat, 31);
                            }
                            lemma_bits_of_value(s.take(i + 1));
                            if i < 31 {
                                lemma_pow2_strictly_increases((i + 1) as nat, 32);
                            }
                        }
                        if b {
                            value = value + weight;
                        }
                        weight = if i < 31 { weight * 2 } else { 0 };
                    }
                }
            }
            i = i + 1;
        }
        Ok(value as u32)
    }

    /// The bits taken so far.
    pub fn bits_consumed(&self) -> (r: u128)
        requires
            self.wf(),
        ensures
            r + self@.len() == 8 * self.source().len(),
    {
        proof {
            lemma_bits_len(self.cur as nat, self.left as nat);
            lemma_byte_bits_len(self.data@.skip(self.next as int));
        }
        self.next as u128 * 8 - self.left as u128
    }
}

} // verus!
