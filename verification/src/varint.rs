//! LEB128 variable-length integers.
//!
//! A value is written as its bit pattern in groups of seven bits, least
//! significant group first; every byte but the last has its high bit set.
//! Signed and unsigned types alike are written by their two's-complement
//! bit pattern, so a negative number takes the full width of its type.

use crate::bits::{
    convert, int_min, lemma_pow2_add, lemma_pow2_monotonic, lemma_pow2_positive, lemma_pow256_pow2,
    lemma_truncate_sum, pow2, pow256, NetInt,
};
use crate::string::LengthPrefix;
use crate::{DecodeError, EncodeError, NetDecode, NetEncode, NetFormat};
use vstd::prelude::*;

verus! {

/// The seven data bits of a byte.
pub const SEGMENT_BITS: u8 = 0b0111_1111;

/// The bit that says another byte follows.
pub const CONTINUE_BIT: u8 = 0b1000_0000;

/// The LEB128 format.
#[non_exhaustive]
pub struct Leb128;

impl NetFormat for Leb128 {
}

/// Why reading a LEB128 integer stopped.
#[derive(Debug, Clone, Copy, PartialEq, Eq, Structural)]
pub enum Leb128DecodeError {
    /// More bytes were marked to follow than the type has room for.
    TooLong,
    /// The input ended while more bytes were marked to follow.
    UnexpectedEnd,
}

/// A LEB128 integer ran on for more bytes than its type holds.
#[derive(Debug, Clone, Copy, PartialEq, Eq, Structural)]
pub struct Leb128TooLong;

/// An integer carried as LEB128.
pub struct VarInt<T>(pub T);

/// A signed type whose bit pattern LEB128 writes.
pub trait Leb128RawVarIntType: NetInt {
}

impl Leb128RawVarIntType for i16 {
}

impl Leb128RawVarIntType for i32 {
}

impl Leb128RawVarIntType for i64 {
}

impl Leb128RawVarIntType for i128 {
}

/// A type that LEB128 can carry, through the signed type of its width.
pub trait Leb128VarIntType: NetInt {
    type Raw: Leb128RawVarIntType;

    spec fn spec_to_raw(self) -> Self::Raw;

    spec fn spec_from_raw(v: Self::Raw) -> Self;

    fn to_raw(self) -> (r: Self::Raw)
        ensures
            r == self.spec_to_raw(),
    ;

    fn from_raw(v: Self::Raw) -> (r: Self)
        ensures
            r == Self::spec_from_raw(v),
    ;

    proof fn lemma_raw(self)
        ensures
            Self::spec_from_raw(self.spec_to_raw()) == self,
            self.spec_to_raw().spec_bits() == self.spec_bits(),
            Self::Raw::spec_size() == Self::spec_size(),
    ;

    proof fn lemma_raw_inverse(v: Self::Raw)
        ensures
            Self::spec_from_raw(v).spec_to_raw() == v,
    ;
}

impl Leb128VarIntType for i16 {
    type Raw = i16;

    open spec fn spec_to_raw(self) -> i16 {
        self
    }

    open spec fn spec_from_raw(v: i16) -> Self {
        v
    }

    fn to_raw(self) -> (r: i16) {
        self
    }

    fn from_raw(v: i16) -> (r: Self) {
        v
    }

    proof fn lemma_raw(self) {
    }

    proof fn lemma_raw_inverse(v: i16) {
    }
}

impl Leb128VarIntType for i32 {
    type Raw = i32;

    open spec fn spec_to_raw(self) -> i32 {
        self
    }

    open spec fn spec_from_raw(v: i32) -> Self {
        v
    }

    fn to_raw(self) -> (r: i32) {
        self
    }

    fn from_raw(v: i32) -> (r: Self) {
        v
    }

    proof fn lemma_raw(self) {
    }

    proof fn lemma_raw_inverse(v: i32) {
    }
}

impl Leb128VarIntType for i64 {
    type Raw = i64;

    open spec fn spec_to_raw(self) -> i64 {
        self
    }

    open spec fn spec_from_raw(v: i64) -> Self {
        v
    }

    fn to_raw(self) -> (r: i64) {
        self
    }

    fn from_raw(v: i64) -> (r: Self) {
        v
    }

    proof fn lemma_raw(self) {
    }

    proof fn lemma_raw_inverse(v: i64) {
    }
}

impl Leb128VarIntType for i128 {
    type Raw = i128;

    open spec fn spec_to_raw(self) -> i128 {
        self
    }

    open spec fn spec_from_raw(v: i128) -> Self {
        v
    }

    fn to_raw(self) -> (r: i128) {
        self
    }

    fn from_raw(v: i128) -> (r: Self) {
        v
    }

    proof fn lemma_raw(self) {
    }

    proof fn lemma_raw_inverse(v: i128) {
    }
}

impl Leb128VarIntType for u16 {
    type Raw = i16;

    open spec fn spec_to_raw(self) -> i16 {
        i16::spec_from_bits(self.spec_bits())
    }

    open spec fn spec_from_raw(v: i16) -> Self {
        u16::spec_from_bits(v.spec_bits())
    }

    fn to_raw(self) -> (r: i16) {
        proof { self.lemma_bits(); }
        i16::from_bits(self.to_bits())
    }

    fn from_raw(v: i16) -> (r: Self) {
        proof { v.lemma_bits(); }
        u16::from_bits(v.to_bits())
    }

    proof fn lemma_raw(self) {
        self.lemma_bits();
        i16::lemma_from_bits(self.spec_bits());
    }

    proof fn lemma_raw_inverse(v: i16) {
        v.lemma_bits();
        u16::lemma_from_bits(v.spec_bits());
    }
}

impl Leb128VarIntType for u32 {
    type Raw = i32;

    open spec fn spec_to_raw(self) -> i32 {
        i32::spec_from_bits(self.spec_bits())
    }

    open spec fn spec_from_raw(v: i32) -> Self {
        u32::spec_from_bits(v.spec_bits())
    }

    fn to_raw(self) -> (r: i32) {
        proof { self.lemma_bits(); }
        i32::from_bits(self.to_bits())
    }

    fn from_raw(v: i32) -> (r: Self) {
        proof { v.lemma_bits(); }
        u32::from_bits(v.to_bits())
    }

    proof fn lemma_raw(self) {
        self.lemma_bits();
        i32::lemma_from_bits(self.spec_bits());
    }

    proof fn lemma_raw_inverse(v: i32) {
        v.lemma_bits();
        u32::lemma_from_bits(v.spec_bits());
    }
}

impl Leb128VarIntType for u64 {
    type Raw = i64;

    open spec fn spec_to_raw(self) -> i64 {
        i64::spec_from_bits(self.spec_bits())
    }

    open spec fn spec_from_raw(v: i64) -> Self {
        u64::spec_from_bits(v.spec_bits())
    }

    fn to_raw(self) -> (r: i64) {
        proof { self.lemma_bits(); }
        i64::from_bits(self.to_bits())
    }

    fn from_raw(v: i64) -> (r: Self) {
        proof { v.lemma_bits(); }
        u64::from_bits(v.to_bits())
    }

    proof fn lemma_raw(self) {
        self.lemma_bits();
        i64::lemma_from_bits(self.spec_bits());
    }

    proof fn lemma_raw_inverse(v: i64) {
        v.lemma_bits();
        u64::lemma_from_bits(v.spec_bits());
    }
}

impl Leb128VarIntType for u128 {
    type Raw = i128;

    open spec fn spec_to_raw(self) -> i128 {
        i128::spec_from_bits(self.spec_bits())
    }

    open spec fn spec_from_raw(v: i128) -> Self {
        u128::spec_from_bits(v.spec_bits())
    }

    fn to_raw(self) -> (r: i128) {
        proof { self.lemma_bits(); }
        i128::from_bits(self.to_bits())
    }

    fn from_raw(v: i128) -> (r: Self) {
        proof { v.lemma_bits(); }
        u128::from_bits(v.to_bits())
    }

    proof fn lemma_raw(self) {
        self.lemma_bits();
        i128::lemma_from_bits(self.spec_bits());
    }

    proof fn lemma_raw_inverse(v: i128) {
        v.lemma_bits();
        u128::lemma_from_bits(v.spec_bits());
    }
}

/// The LEB128 bytes of `x`: seven bits at a time, least significant first,
/// the high bit set on every byte but the last.
pub open spec fn leb128_bytes(x: nat) -> Seq<u8>
    decreases x,
{
    if x < 128 {
        seq![x as u8]
    } else {
        seq![(x % 128 + 128) as u8] + leb128_bytes(x / 128)
    }
}

/// The number whose seven-bit groups, least significant first, are the low
/// seven bits of the bytes of `s`.
pub open spec fn leb128_value(s: Seq<u8>) -> nat
    decreases s.len(),
{
    if s.len() == 0 {
        0
    } else {
        (s[0] % 128) as nat + 128 * leb128_value(s.drop_first())
    }
}

/// How many bytes the LEB128 integer at the front of `bytes` takes, for a type
/// with `room` bits left to fill, or why reading it fails: a byte with the high
/// bit set is refused once fewer than seven bits are left, and the input may end
/// too soon.
pub open spec fn leb128_scan(bytes: Seq<u8>, room: int) -> Result<nat, DecodeError>
    decreases bytes.len(),
{
    if bytes.len() == 0 {
        Err(DecodeError::UnexpectedEnd)
    } else if bytes[0] < 128 {
        Ok(1)
    } else if room < 7 {
        Err(DecodeError::Leb128TooLong)
    } else {
        match leb128_scan(bytes.drop_first(), room - 7) {
            Ok(n) => Ok(n + 1),
            Err(e) => Err(e),
        }
    }
}

/// The number of bits of the type that carries `VarInt<T>` on the wire.
pub open spec fn varint_width<T: Leb128VarIntType>() -> nat {
    8 * T::Raw::spec_size()
}

/// The number that `VarInt<T>` writes for `v`: the bit pattern of its raw type.
pub open spec fn varint_wire<T: Leb128VarIntType>(v: T) -> nat {
    v.spec_to_raw().spec_bits()
}

/// The value that a decoded number `u` stands for: its low bits, read as the raw type.
pub open spec fn varint_from_wire<T: Leb128VarIntType>(u: nat) -> T {
    T::spec_from_raw(T::Raw::spec_from_bits(u % pow2(varint_width::<T>())))
}

/// Appends the LEB128 bytes of `x`.
fn write_leb128(x: u128, out: &mut Vec<u8>)
    ensures
        final(out)@ == old(out)@ + leb128_bytes(x as nat),
{
    let mut v = x;
    loop
        invariant
            out@ + leb128_bytes(v as nat) == old(out)@ + leb128_bytes(x as nat),
        decreases v,
    {
        if v & !(SEGMENT_BITS as u128) == 0 {
            assert(v & !0x7fu128 == 0 <==> v < 128) by (bit_vector);
            assert(v & 0xffu128 == v) by (bit_vector)
                requires v < 128;
            out.push((v & (u8::MAX as u128)) as u8);
            assert(out@ =~= old(out)@ + leb128_bytes(x as nat));
            return;
        }
        assert(v & !0x7fu128 == 0 <==> v < 128) by (bit_vector);
        let byte = ((v & (SEGMENT_BITS as u128)) as u8) | CONTINUE_BIT;
        assert(((v & 0x7fu128) as u8) | 0x80u8 == (v % 128 + 128) as u8) by (bit_vector);
        let ghost before = out@;
        out.push(byte);
        assert(before + leb128_bytes(v as nat) =~= out@ + leb128_bytes((v / 128) as nat));
        assert(v >> 7u32 == v / 128) by (bit_vector);
        v = v >> 7u32;
    }
}

impl<T: Leb128VarIntType> NetEncode<Leb128> for VarInt<T> {
    open spec fn spec_encode(&self) -> Option<Seq<u8>> {
        Some(leb128_bytes(varint_wire(self.0)))
    }

    fn encode(&self, out: &mut Vec<u8>) -> (r: Result<(), EncodeError>) {
        let raw = self.0.to_raw();
        write_leb128(raw.to_bits(), out);
        Ok(())
    }
}

/// Reading through bytes that all mark another to follow moves seven bits of room per byte.
pub proof fn lemma_leb128_scan_prefix(seen: Seq<u8>, rest: Seq<u8>, room: int)
    requires
        forall|i: int| 0 <= i < seen.len() ==> seen[i] >= 128,
        room >= 7 * seen.len(),
    ensures
        leb128_scan(seen + rest, room) == match leb128_scan(rest, room - 7 * seen.len()) {
            Ok(n) => Ok(n + seen.len()),
            Err(e) => Err::<nat, DecodeError>(e),
        },
    decreases seen.len(),
{
    if seen.len() > 0 {
        let tail = seen.drop_first();
        assert((seen + rest).drop_first() =~= tail + rest);
        lemma_leb128_scan_prefix(tail, rest, room - 7);
        assert(room - 7 - 7 * tail.len() == room - 7 * seen.len());
    } else {
        assert(seen + rest =~= rest);
    }
}

/// Once the bytes at the front settle the outcome, what follows them does not change it.
pub proof fn lemma_leb128_scan_extend(s: Seq<u8>, t: Seq<u8>, room: int)
    requires
        leb128_scan(s, room) is Ok || leb128_scan(s, room) == Err::<nat, DecodeError>(DecodeError::Leb128TooLong),
    ensures
        leb128_scan(s + t, room) == leb128_scan(s, room),
    decreases s.len(),
{
    if s.len() > 0 {
        assert((s + t)[0] == s[0]);
        if s[0] >= 128 && room >= 7 {
            assert((s + t).drop_first() =~= s.drop_first() + t);
            lemma_leb128_scan_extend(s.drop_first(), t, room - 7);
        }
    }
}

/// The groups of `s + t` are those of `s` followed by those of `t`, seven bits further up per byte.
pub proof fn lemma_leb128_value_append(s: Seq<u8>, t: Seq<u8>)
    ensures
        leb128_value(s + t) == leb128_value(s) + pow2(7 * s.len()) * leb128_value(t),
    decreases s.len(),
{
    if s.len() == 0 {
        assert(s + t =~= t);
        reveal_with_fuel(pow2, 1);
        assert(pow2(7 * s.len()) == 1);
        assert(leb128_value(s) == 0);
        assert(1 * leb128_value(t) == leb128_value(t));
    } else {
        let tail = s.drop_first();
        assert((s + t).drop_first() =~= tail + t);
        lemma_leb128_value_append(tail, t);
        lemma_pow2_add(7, 7 * tail.len());
        reveal_with_fuel(pow2, 8);
        assert(7 + 7 * tail.len() == 7 * s.len());
        let a = leb128_value(tail);
        let p = pow2(7 * tail.len());
        let b = leb128_value(t);
        assert((s + t)[0] == s[0]);
        assert(leb128_value(s + t) == (s[0] % 128) as nat + 128 * leb128_value(tail + t));
        assert(pow2(7 * s.len()) == 128 * p);
        assert(leb128_value(s) == (s[0] % 128) as nat + 128 * a);
        assert(128 * (a + p * b) == 128 * a + (128 * p) * b) by (nonlinear_arith);
        assert(leb128_value(tail + t) == a + p * b);
        assert(leb128_value(s + t) == (s[0] % 128) as nat + 128 * (a + p * b));
    }
}

/// The value of a LEB128 prefix of `k` bytes is below `2^(7k)`.
pub proof fn lemma_leb128_value_bound(s: Seq<u8>)
    ensures
        leb128_value(s) < pow2(7 * s.len()),
    decreases s.len(),
{
    if s.len() > 0 {
        let tail = s.drop_first();
        lemma_leb128_value_bound(tail);
        lemma_pow2_add(7, 7 * tail.len());
        reveal_with_fuel(pow2, 8);
        assert(7 + 7 * tail.len() == 7 * s.len());
    } else {
        reveal_with_fuel(pow2, 1);
    }
}

/// Where a LEB128 reader stands after the bytes it has been given.
#[derive(Debug, Clone, Copy, PartialEq, Eq, Structural)]
pub enum Leb128Step {
    /// Another byte is needed.
    More,
    /// The integer ended; these are its bits, cut to the width of the type.
    Done(u128),
    /// A byte marked another to follow where the type has no room left.
    TooLong(Leb128TooLong),
}

/// Reads a LEB128 integer one byte at a time, as bytes arrive from a stream.
pub struct Leb128Decoder {
    acc: u128,
    weight: u128,
    room: u32,
    width: u32,
    seen: Ghost<Seq<u8>>,
}

/// `2^e` for `e` below seven.
fn small_pow2(e: u32) -> (r: u128)
    requires
        e < 7,
    ensures
        r == pow2(e as nat),
{
    let mut p: u128 = 1;
    let mut i: u32 = 0;
    proof { reveal_with_fuel(pow2, 1); }
    while i < e
        invariant
            i <= e < 7,
            p == pow2(i as nat),
            p <= 64,
        decreases e - i,
    {
        proof {
            reveal_with_fuel(pow2, 8);
            lemma_pow2_monotonic((i + 1) as nat, 6);
        }
        p = p * 2;
        i = i + 1;
    }
    p
}

impl Leb128Decoder {
    /// The bytes given so far, all of them marked to be followed by another.
    pub closed spec fn seen(&self) -> Seq<u8> {
        self.seen@
    }

    /// The number of bits of the type being read.
    pub closed spec fn width(&self) -> nat {
        self.width as nat
    }

    /// The reader's state agrees with the bytes it has seen: their value so far,
    /// the weight of the next group, and the bits of the type still free.
    pub closed spec fn wf(&self) -> bool {
        &&& self.width <= 128
        &&& self.room + 7 * self.seen@.len() == self.width
        &&& forall|i: int| 0 <= i < self.seen@.len() ==> self.seen@[i] >= 128
        &&& self.weight == pow2(7 * self.seen@.len())
        &&& self.acc == leb128_value(self.seen@)
    }

    /// A reader for a type of `width` bits that has seen no byte yet.
    pub fn new(width: u32) -> (r: Self)
        requires
            width <= 128,
        ensures
            r.wf(),
            r.seen() == Seq::<u8>::empty(),
            r.width() == width,
    {
        proof { reveal_with_fuel(pow2, 1); }
        Leb128Decoder { acc: 0, weight: 1, room: width, width, seen: Ghost(Seq::empty()) }
    }

    /// Takes the next byte. The outcome is that of reading all the bytes given so
    /// far as one LEB128 integer: it ended, it ran too long, or it needs more.
    pub fn push(&mut self, byte: u8) -> (r: Leb128Step)
        requires
            old(self).wf(),
        ensures
            ({
                let s = old(self).seen().push(byte);
                match leb128_scan(s, old(self).width() as int) {
                    Ok(n) => n == s.len() && leb128_value(s) % pow2(old(self).width()) < pow2(128)
                        && r == Leb128Step::Done((leb128_value(s) % pow2(old(self).width())) as u128),
                    Err(DecodeError::Leb128TooLong) => r == Leb128Step::TooLong(Leb128TooLong),
                    Err(_) => r == Leb128Step::More && final(self).wf() && final(self).seen() == s
                        && final(self).width() == old(self).width(),
                }
            }),
    {
        let ghost s = self.seen@.push(byte);
        let ghost k = self.seen@.len();
        let ghost w = self.width as nat;
        proof {
            assert(s =~= self.seen@ + seq![byte]);
            lemma_leb128_scan_prefix(self.seen@, seq![byte], w as int);
            lemma_leb128_value_append(self.seen@, seq![byte]);
            lemma_leb128_value_bound(self.seen@);
            assert(seq![byte].drop_first() =~= Seq::<u8>::empty());
            reveal_with_fuel(leb128_value, 2);
            assert(leb128_value(seq![byte]) == (byte % 128) as nat);
            reveal_with_fuel(leb128_scan, 2);
            lemma_pow2_monotonic(7 * k, w);
            lemma_pow2_monotonic(w, 128);
            lemma_pow256_pow2(16);
            crate::bits::lemma_pow256_values();
        }
        let d = byte & SEGMENT_BITS;
        assert(byte & 0x7fu8 == byte % 128) by (bit_vector);
        assert(byte & 0x80u8 == 0 <==> byte < 128) by (bit_vector);
        if byte & CONTINUE_BIT == 0 {
            proof {
                lemma_truncate_sum(self.acc as nat, d as nat, 7 * k, w);
                lemma_pow2_positive(self.room as nat);
                lemma_pow2_add(7 * k, self.room as nat);
                assert(7 * k + self.room == w);
                let m = pow2(self.room as nat);
                let r = (d as nat) % m;
                assert(self.acc + r * self.weight < pow2(w)) by (nonlinear_arith)
                    requires
                        self.acc < self.weight,
                        r < m,
                        self.weight * m == pow2(w),
                {}
            }
            let term: u128 = if self.room >= 7 {
                proof {
                    lemma_pow2_monotonic(7, self.room as nat);
                    reveal_with_fuel(pow2, 8);
                    vstd::arithmetic::div_mod::lemma_small_mod(d as nat, pow2(self.room as nat));
                }
                (d as u128) * self.weight
            } else {
                ((d as u128) % small_pow2(self.room)) * self.weight
            };
            return Leb128Step::Done(self.acc + term);
        }
        if self.room < 7 {
            return Leb128Step::TooLong(Leb128TooLong);
        }
        proof {
            lemma_pow2_add(7 * k, 7);
            reveal_with_fuel(pow2, 8);
            lemma_pow2_monotonic(7 * k + 7, 126);
            assert(self.acc + (d as nat) * self.weight < self.weight * 128) by (nonlinear_arith)
                requires
                    self.acc < self.weight,
                    d < 128,
            {}
        }
        let ghost old_acc = self.acc;
        let ghost old_weight = self.weight;
        self.acc = self.acc + (d as u128) * self.weight;
        self.weight = self.weight * 128;
        self.room = self.room - 7;
        self.seen = Ghost(s);
        proof {
            assert(7 * s.len() == 7 * k + 7);
            assert((d as nat) * old_weight == old_weight * (byte % 128) as nat) by (nonlinear_arith)
                requires d == byte % 128;
            assert(self.acc == leb128_value(s));
            assert(leb128_scan(s, w as int) == Err::<nat, DecodeError>(DecodeError::UnexpectedEnd));
            assert(self.weight == pow2(7 * s.len()));
            assert forall|i: int| 0 <= i < s.len() implies s[i] >= 128 by {
                if i < k {
                    assert(s[i] == old(self).seen@[i]);
                }
            }
        }
        Leb128Step::More
    }
}

/// A LEB128 integer that reads to the end takes at least one byte and no more than there are.
pub proof fn lemma_leb128_scan_len(bytes: Seq<u8>, room: int)
    ensures
        leb128_scan(bytes, room) matches Ok(n) ==> 1 <= n <= bytes.len(),
    decreases bytes.len(),
{
    if bytes.len() > 0 && bytes[0] >= 128 && room >= 7 {
        lemma_leb128_scan_len(bytes.drop_first(), room - 7);
    }
}

/// Reads a LEB128 integer of a type of `width` bits from the front of `bytes`:
/// its bits, cut to the width, and the number of bytes it took.
pub fn decode_leb128(bytes: &[u8], width: u32) -> (r: Result<(u128, usize), DecodeError>)
    requires
        width <= 128,
    ensures
        match leb128_scan(bytes@, width as int) {
            Ok(n) => r == Ok::<(u128, usize), DecodeError>(
                ((leb128_value(bytes@.take(n as int)) % pow2(width as nat)) as u128, n as usize),
            ),
            Err(e) => r == Err::<(u128, usize), DecodeError>(e),
        },
{
    let mut reader = Leb128Decoder::new(width);
    let mut i: usize = 0;
    proof { lemma_leb128_scan_len(bytes@, width as int); }
    while i < bytes.len()
        invariant
            reader.wf(),
            reader.width() == width,
            i <= bytes@.len(),
            reader.seen() == bytes@.take(i as int),
        decreases bytes@.len() - i,
    {
        let ghost s = bytes@.take(i + 1);
        assert(reader.seen().push(bytes@[i as int]) =~= s);
        assert(bytes@ =~= s + bytes@.skip(i + 1));
        match reader.push(bytes[i]) {
            Leb128Step::More => {},
            Leb128Step::Done(bits) => {
                proof { lemma_leb128_scan_extend(s, bytes@.skip(i + 1), width as int); }
                return Ok((bits, i + 1));
            },
            Leb128Step::TooLong(_) => {
                proof { lemma_leb128_scan_extend(s, bytes@.skip(i + 1), width as int); }
                return Err(DecodeError::Leb128TooLong);
            },
        }
        i = i + 1;
    }
    proof {
        assert(bytes@.take(i as int) =~= bytes@);
        assert(bytes@ + Seq::<u8>::empty() =~= bytes@);
        lemma_leb128_scan_prefix(bytes@, Seq::<u8>::empty(), width as int);
    }
    Err(DecodeError::UnexpectedEnd)
}

impl<T: Leb128VarIntType> NetDecode<Leb128> for VarInt<T> {
    open spec fn spec_decodes(bytes: Seq<u8>, v: Self, n: nat) -> bool {
        &&& leb128_scan(bytes, varint_width::<T>() as int) == Ok::<nat, DecodeError>(n)
        &&& v.0 == varint_from_wire::<T>(leb128_value(bytes.take(n as int)))
    }

    open spec fn spec_decode_error(bytes: Seq<u8>) -> Option<DecodeError> {
        match leb128_scan(bytes, varint_width::<T>() as int) {
            Ok(_) => None,
            Err(e) => Some(e),
        }
    }

    fn decode(bytes: &[u8]) -> (r: Result<(Self, usize), DecodeError>) {
        let size = T::Raw::size();
        let width = (size * 8) as u32;
        proof { lemma_leb128_scan_len(bytes@, width as int); }
        let total = bytes.len();
        let res = decode_leb128(bytes, width);
        match res {
            Ok((bits, n)) => {
                proof {
                    assert(res == Ok::<(u128, usize), DecodeError>((bits, n)));
                    lemma_pow256_pow2(size as nat);
                    lemma_pow2_positive(width as nat);
                    lemma_pow2_monotonic(width as nat, 128);
                    lemma_pow256_pow2(16);
                    crate::bits::lemma_pow256_values();
                    assert(leb128_scan(bytes@, width as int) is Ok);
                    let m = leb128_scan(bytes@, width as int)->Ok_0;
                    assert(m <= total);
                    assert(n as nat == m);
                    assert(pow2(128) == 0x1_0000_0000_0000_0000_0000_0000_0000_0000);
                    let x = leb128_value(bytes@.take(n as int)) % pow2(width as nat);
                    assert(x < pow2(width as nat));
                    assert(bits as nat == x);
                    assert(width as nat == varint_width::<T>());
                }
                let raw = T::Raw::from_bits(bits);
                Ok((VarInt(T::from_raw(raw)), n))
            },
            Err(e) => Err(e),
        }
    }
}

/// Reading back the LEB128 bytes of `x` gives `x`.
pub proof fn lemma_leb128_value_of_bytes(x: nat)
    ensures
        leb128_value(leb128_bytes(x)) == x,
    decreases x,
{
    let b = leb128_bytes(x);
    reveal_with_fuel(leb128_value, 2);
    if x < 128 {
        assert(b.drop_first() =~= Seq::<u8>::empty());
    } else {
        assert(b.drop_first() =~= leb128_bytes(x / 128));
        lemma_leb128_value_of_bytes(x / 128);
    }
}

/// The LEB128 bytes of a number that fits in `room` bits read to their end,
/// whatever follows them.
pub proof fn lemma_leb128_scan_bytes(x: nat, rest: Seq<u8>, room: int)
    requires
        room >= 0,
        x < pow2(room as nat),
    ensures
        leb128_scan(leb128_bytes(x) + rest, room) == Ok::<nat, DecodeError>(leb128_bytes(x).len()),
    decreases x,
{
    let b = leb128_bytes(x);
    assert((b + rest)[0] == b[0]);
    if x >= 128 {
        if room < 7 {
            lemma_pow2_monotonic(room as nat, 6);
            reveal_with_fuel(pow2, 7);
            assert(false);
        }
        lemma_pow2_add(7, (room - 7) as nat);
        reveal_with_fuel(pow2, 8);
        assert(7 + (room - 7) as nat == room as nat);
        assert((b + rest).drop_first() =~= leb128_bytes(x / 128) + rest);
        lemma_leb128_scan_bytes(x / 128, rest, room - 7);
    }
}

/// Decoding what encoding wrote gives the value back, whatever follows it in
/// the buffer, and takes exactly the bytes written.
pub proof fn lemma_varint_roundtrip<T: Leb128VarIntType>(v: T, rest: Seq<u8>)
    ensures
        <VarInt<T> as NetEncode<Leb128>>::spec_encode(&VarInt(v)) matches Some(b) && {
            &&& <VarInt<T> as NetDecode<Leb128>>::spec_decode_error(b + rest) is None
            &&& <VarInt<T> as NetDecode<Leb128>>::spec_decodes(b + rest, VarInt(v), b.len())
        },
{
    let raw = v.spec_to_raw();
    let x = raw.spec_bits();
    let w = varint_width::<T>();
    let b = leb128_bytes(x);
    raw.lemma_bits();
    v.lemma_raw();
    lemma_pow256_pow2(T::Raw::spec_size());
    lemma_leb128_scan_bytes(x, rest, w as int);
    lemma_leb128_scan_len(b + rest, w as int);
    assert((b + rest).take(b.len() as int) =~= b);
    lemma_leb128_value_of_bytes(x);
    vstd::arithmetic::div_mod::lemma_small_mod(x, pow2(w));
}

impl<T: Leb128VarIntType> LengthPrefix<Leb128> for VarInt<T> {
    open spec fn spec_from_len(n: nat) -> Option<Self> {
        if n <= T::spec_max() {
            Some(VarInt(T::spec_from_bits(n)))
        } else {
            None
        }
    }

    open spec fn spec_to_len(self) -> Option<nat> {
        if 0 <= self.0.spec_int() <= usize::MAX {
            Some(self.0.spec_int() as nat)
        } else {
            None
        }
    }

    open spec fn spec_decoded(bytes: Seq<u8>) -> (Self, nat) {
        let n = leb128_scan(bytes, varint_width::<T>() as int)->Ok_0;
        (VarInt(varint_from_wire::<T>(leb128_value(bytes.take(n as int)))), n)
    }

    fn try_from_len(n: usize) -> (r: Option<Self>) {
        if (n as u128) <= T::max() {
            proof {
                T::lemma_range();
                T::lemma_from_bits(n as nat);
            }
            Some(VarInt(T::from_bits(n as u128)))
        } else {
            None
        }
    }

    fn try_to_len(&self) -> (r: Option<usize>) {
        proof { self.0.lemma_bits(); }
        let b = self.0.to_bits();
        if b <= T::max() && b <= usize::MAX as u128 {
            Some(b as usize)
        } else {
            None
        }
    }

    proof fn lemma_decoded(bytes: Seq<u8>, v: Self, n: nat) {
    }

    proof fn lemma_length(n: nat) {
        T::lemma_range();
        if n <= T::spec_max() {
            T::lemma_from_bits(n);
        }
    }

    proof fn lemma_prefix(bytes: Seq<u8>, more: Seq<u8>) {
        let w = varint_width::<T>() as int;
        lemma_leb128_scan_len(bytes, w);
        lemma_leb128_scan_take(bytes, w);
        let n = leb128_scan(bytes, w)->Ok_0;
        let s = bytes.take(n as int);
        assert(bytes =~= s + bytes.skip(n as int));
        assert(bytes + more =~= s + (bytes.skip(n as int) + more));
        lemma_leb128_scan_extend(s, bytes.skip(n as int) + more, w);
        assert((bytes + more).take(n as int) =~= s);
    }

    proof fn lemma_roundtrip(v: Self, rest: Seq<u8>) {
        lemma_varint_roundtrip(v.0, rest);
    }
}

impl<T: Leb128VarIntType> VarInt<T> {
    /// The `VarInt` of the same value as `value`, where `T` can hold it: the
    /// `From` conversions where `T` is wider, the `TryFrom` ones otherwise.
    pub fn try_from_int<S: NetInt>(value: S) -> (r: Option<VarInt<T>>)
        ensures
            r is Some <==> int_min::<T>() <= value.spec_int() <= T::spec_max(),
            r matches Some(v) ==> v.0.spec_int() == value.spec_int(),
    {
        match convert::<S, T>(value) {
            Some(v) => Some(VarInt(v)),
            None => None,
        }
    }

    /// The value as a `S`, where `S` can hold it.
    pub fn try_into_int<S: NetInt>(self) -> (r: Option<S>)
        ensures
            r is Some <==> int_min::<S>() <= self.0.spec_int() <= S::spec_max(),
            r matches Some(v) ==> v.spec_int() == self.0.spec_int(),
    {
        convert::<T, S>(self.0)
    }

    /// The `VarInt` of `1` for `true` and `0` for `false`.
    pub fn from_bool(value: bool) -> (r: VarInt<T>)
        ensures
            r.0.spec_int() == if value { 1int } else { 0int },
    {
        proof {
            T::lemma_range();
            T::lemma_from_bits(0);
            T::lemma_from_bits(1);
        }
        assert(T::spec_max() >= 1) by {
            crate::bits::lemma_pow256_monotonic(1, T::spec_size());
            crate::bits::lemma_pow256_values();
        }
        VarInt(T::from_bits(if value { 1 } else { 0 }))
    }
}

/// A LEB128 value is zero only where every group is.
pub proof fn lemma_leb128_value_zero(s: Seq<u8>)
    requires
        leb128_value(s) == 0,
    ensures
        forall|i: int| 0 <= i < s.len() ==> s[i] % 128 == 0,
    decreases s.len(),
{
    if s.len() > 0 {
        lemma_leb128_value_zero(s.drop_first());
        assert forall|i: int| 0 <= i < s.len() implies s[i] % 128 == 0 by {
            if i > 0 {
                assert(s[i] == s.drop_first()[i - 1]);
            }
        }
    }
}

/// One LEB128 integer in its shortest form (no zero group at the top), whose
/// value fits in `room` bits, is exactly what encoding writes for that value.
pub proof fn lemma_leb128_canonical(s: Seq<u8>, room: int)
    requires
        leb128_scan(s, room) == Ok::<nat, DecodeError>(s.len()),
        s.len() == 1 || s.last() != 0,
        leb128_value(s) < pow2(room as nat),
        room >= 0,
    ensures
        leb128_bytes(leb128_value(s)) == s,
    decreases s.len(),
{
    let x = leb128_value(s);
    reveal_with_fuel(leb128_value, 2);
    if s.len() == 1 {
        assert(s.drop_first() =~= Seq::<u8>::empty());
        assert(s[0] < 128) by {
            if s[0] >= 128 {
                reveal_with_fuel(leb128_scan, 2);
            }
        }
        assert(leb128_bytes(x) =~= s);
    } else {
        let tail = s.drop_first();
        lemma_leb128_scan_len(s, room);
        assert(s[0] >= 128 && room >= 7) by {
            if s[0] < 128 || room < 7 {
                assert(leb128_scan(s, room) != Ok::<nat, DecodeError>(s.len()));
            }
        }
        assert(leb128_scan(tail, room - 7) == Ok::<nat, DecodeError>(tail.len()));
        assert(tail.last() == s.last());
        let y = leb128_value(tail);
        assert(y > 0) by {
            if y == 0 {
                lemma_leb128_value_zero(tail);
                assert(tail[tail.len() - 1] % 128 == 0);
                lemma_leb128_scan_len(tail, room - 7);
                assert(tail.last() < 128) by {
                    lemma_leb128_last(tail, room - 7);
                }
            }
        }
        lemma_pow2_add(7, (room - 7) as nat);
        reveal_with_fuel(pow2, 8);
        assert(7 + (room - 7) as nat == room as nat);
        assert(x == (s[0] % 128) as nat + 128 * y);
        assert(y < pow2((room - 7) as nat));
        lemma_leb128_canonical(tail, room - 7);
        assert(x / 128 == y);
        assert(x % 128 == s[0] % 128);
        assert(leb128_bytes(x) =~= s);
    }
}

/// The last byte of a LEB128 integer that reads to the end of `s` has its high bit clear.
pub proof fn lemma_leb128_last(s: Seq<u8>, room: int)
    requires
        leb128_scan(s, room) == Ok::<nat, DecodeError>(s.len()),
    ensures
        s.last() < 128,
    decreases s.len(),
{
    lemma_leb128_scan_len(s, room);
    if s[0] >= 128 {
        let tail = s.drop_first();
        lemma_leb128_scan_len(tail, room - 7);
        lemma_leb128_last(tail, room - 7);
    }
}

/// Bytes that hold one `VarInt` in its shortest form, without bits beyond the
/// type, are exactly what encoding writes for the value they decode to.
pub proof fn lemma_varint_canonical<T: Leb128VarIntType>(bytes: Seq<u8>, v: T, n: nat)
    requires
        <VarInt<T> as NetDecode<Leb128>>::spec_decodes(bytes, VarInt(v), n),
        n == 1 || bytes[n - 1] != 0,
        leb128_value(bytes.take(n as int)) < pow2(varint_width::<T>()),
    ensures
        <VarInt<T> as NetEncode<Leb128>>::spec_encode(&VarInt(v)) == Some(bytes.take(n as int)),
{
    let w = varint_width::<T>();
    let s = bytes.take(n as int);
    let x = leb128_value(s);
    lemma_leb128_scan_len(bytes, w as int);
    lemma_leb128_scan_take(bytes, w as int);
    vstd::arithmetic::div_mod::lemma_small_mod(x, pow2(w));
    lemma_pow256_pow2(T::Raw::spec_size());
    T::Raw::lemma_from_bits(x);
    T::lemma_raw_inverse(T::Raw::spec_from_bits(x));
    lemma_leb128_canonical(s, w as int);
}

/// The bytes that a LEB128 integer takes read the same on their own.
pub proof fn lemma_leb128_scan_take(bytes: Seq<u8>, room: int)
    requires
        leb128_scan(bytes, room) is Ok,
    ensures
        leb128_scan(bytes.take(leb128_scan(bytes, room)->Ok_0 as int), room) == leb128_scan(bytes, room),
    decreases bytes.len(),
{
    let n = leb128_scan(bytes, room)->Ok_0;
    lemma_leb128_scan_len(bytes, room);
    let s = bytes.take(n as int);
    assert(s[0] == bytes[0]);
    if bytes[0] >= 128 {
        let tail = bytes.drop_first();
        lemma_leb128_scan_take(tail, room - 7);
        assert(s.drop_first() =~= tail.take(n - 1));
    }
}

/// A `VarInt` that decodes from `bytes` decodes the same with more bytes after
/// it, and bytes that already run too long stay too long: decoding reads only
/// the bytes of the integer.
pub proof fn lemma_varint_prefix<T: Leb128VarIntType>(bytes: Seq<u8>, more: Seq<u8>)
    requires
        <VarInt<T> as NetDecode<Leb128>>::spec_decode_error(bytes) is None
            || <VarInt<T> as NetDecode<Leb128>>::spec_decode_error(bytes) == Some(DecodeError::Leb128TooLong),
    ensures
        <VarInt<T> as NetDecode<Leb128>>::spec_decode_error(bytes + more)
            == <VarInt<T> as NetDecode<Leb128>>::spec_decode_error(bytes),
        forall|v: VarInt<T>, n: nat| #[trigger] <VarInt<T> as NetDecode<Leb128>>::spec_decodes(bytes, v, n)
            ==> <VarInt<T> as NetDecode<Leb128>>::spec_decodes(bytes + more, v, n),
{
    let w = varint_width::<T>() as int;
    lemma_leb128_scan_extend(bytes, more, w);
    if leb128_scan(bytes, w) is Ok {
        let n = leb128_scan(bytes, w)->Ok_0;
        lemma_leb128_scan_len(bytes, w);
        assert((bytes + more).take(n as int) =~= bytes.take(n as int));
    }
}

/// The LEB128 bytes of `x`: at least one; the high bit set on all but the last;
/// the last not a zero group unless it is the only byte; and byte `i` holds the
/// seven bits of `x` from bit `7i` up.
pub proof fn lemma_leb128_bytes_shape(x: nat)
    ensures
        ({
            let b = leb128_bytes(x);
            &&& b.len() >= 1
            &&& forall|i: int| 0 <= i < b.len() - 1 ==> #[trigger] b[i] >= 128
            &&& b[b.len() - 1] < 128
            &&& (b.len() == 1 || b[b.len() - 1] != 0)
            &&& forall|i: int| 0 <= i < b.len() ==> #[trigger] b[i] as nat % 128 == x / pow2(7 * i as nat) % 128
        }),
    decreases x,
{
    let b = leb128_bytes(x);
    if x < 128 {
        reveal_with_fuel(pow2, 1);
        assert(b[0] as nat % 128 == x / pow2(0) % 128);
    } else {
        let t = leb128_bytes(x / 128);
        lemma_leb128_bytes_shape(x / 128);
        assert(b == seq![(x % 128 + 128) as u8] + t);
        assert forall|i: int| 0 <= i < b.len() - 1 implies #[trigger] b[i] >= 128 by {
            if i > 0 {
                assert(b[i] == t[i - 1]);
            }
        }
        assert(b[b.len() - 1] == t[t.len() - 1]);
        if t.len() == 1 {
            assert(x / 128 < 128);
            assert(t[0] as nat == x / 128);
        }
        assert forall|i: int| 0 <= i < b.len() implies #[trigger] b[i] as nat % 128 == x / pow2(7 * i as nat) % 128 by {
            if i == 0 {
                reveal_with_fuel(pow2, 1);
                assert(x / 1 == x);
            } else {
                assert(b[i] == t[i - 1]);
                lemma_pow2_add(7, 7 * (i - 1) as nat);
                reveal_with_fuel(pow2, 8);
                assert(7 + 7 * (i - 1) as nat == 7 * i as nat);
                lemma_pow2_positive(7 * (i - 1) as nat);
                vstd::arithmetic::div_mod::lemma_div_denominator(x as int, 128, pow2(7 * (i - 1) as nat) as int);
            }
        }
    }
}

/// A LEB128 integer that reads to its end has the high bit set on every byte
/// before the last, clear on the last, and no more than `room / 7` bytes before it.
pub proof fn lemma_leb128_scan_ok_shape(bytes: Seq<u8>, room: int)
    requires
        room >= 0,
        leb128_scan(bytes, room) is Ok,
    ensures
        ({
            let n = leb128_scan(bytes, room)->Ok_0;
            &&& 1 <= n <= bytes.len()
            &&& forall|i: int| 0 <= i < n - 1 ==> #[trigger] bytes[i] >= 128
            &&& bytes[n - 1] < 128
            &&& 7 * (n - 1) <= room
        }),
    decreases bytes.len(),
{
    if bytes[0] >= 128 {
        let t = bytes.drop_first();
        lemma_leb128_scan_ok_shape(t, room - 7);
        let n = leb128_scan(bytes, room)->Ok_0;
        assert(bytes[n - 1] == t[n - 2]);
        assert forall|i: int| 0 <= i < n - 1 implies #[trigger] bytes[i] >= 128 by {
            if i > 0 {
                assert(bytes[i] == t[i - 1]);
            }
        }
    }
}

/// Bytes with the high bit set before a last byte with it clear, and no more than
/// `room / 7` before it, read as one LEB128 integer that ends at that byte.
pub proof fn lemma_leb128_shape_scan_ok(bytes: Seq<u8>, n: nat, room: int)
    requires
        1 <= n <= bytes.len(),
        forall|i: int| 0 <= i < n - 1 ==> #[trigger] bytes[i] >= 128,
        bytes[n - 1] < 128,
        7 * (n - 1) <= room,
    ensures
        leb128_scan(bytes, room) == Ok::<nat, DecodeError>(n),
    decreases n,
{
    if n > 1 {
        let t = bytes.drop_first();
        assert(bytes[0] >= 128);
        assert(t[n - 2] == bytes[n - 1]);
        assert forall|i: int| 0 <= i < n - 2 implies #[trigger] t[i] >= 128 by {
            assert(t[i] == bytes[i + 1]);
        }
        lemma_leb128_shape_scan_ok(t, (n - 1) as nat, room - 7);
    }
}

/// A LEB128 integer reads to its end exactly where the bytes have the high bit
/// set up to that byte and clear on it, with no more than `room / 7` bytes before it.
pub proof fn lemma_leb128_scan_shape(bytes: Seq<u8>, n: nat, room: int)
    requires
        room >= 0,
    ensures
        leb128_scan(bytes, room) == Ok::<nat, DecodeError>(n) <==> {
            &&& 1 <= n <= bytes.len()
            &&& forall|i: int| 0 <= i < n - 1 ==> #[trigger] bytes[i] >= 128
            &&& bytes[n - 1] < 128
            &&& 7 * (n - 1) <= room
        },
{
    if leb128_scan(bytes, room) == Ok::<nat, DecodeError>(n) {
        lemma_leb128_scan_ok_shape(bytes, room);
    }
    if 1 <= n <= bytes.len() && (forall|i: int| 0 <= i < n - 1 ==> #[trigger] bytes[i] >= 128)
        && bytes[n - 1] < 128 && 7 * (n - 1) <= room {
        lemma_leb128_shape_scan_ok(bytes, n, room);
    }
}

/// Where the first `room / 7 + 1` bytes all have the high bit set, the integer
/// runs on past the room of the type: reading it fails as too long.
pub proof fn lemma_leb128_scan_too_long(bytes: Seq<u8>, room: int)
    requires
        room >= 0,
        bytes.len() > room / 7,
        forall|i: int| 0 <= i <= room / 7 ==> #[trigger] bytes[i] >= 128,
    ensures
        leb128_scan(bytes, room) == Err::<nat, DecodeError>(DecodeError::Leb128TooLong),
    decreases room,
{
    assert(bytes[0] >= 128);
    if room >= 7 {
        let t = bytes.drop_first();
        assert((room - 7) / 7 == room / 7 - 1);
        assert forall|i: int| 0 <= i <= (room - 7) / 7 implies #[trigger] t[i] >= 128 by {
            assert(t[i] == bytes[i + 1]);
        }
        lemma_leb128_scan_too_long(t, room - 7);
    }
}

/// LEB128 writes the bit pattern of the value (the value modulo `2^(8·size)`)
/// seven bits at a time, lowest first: byte `i` holds the bits from `7i` up,
/// every byte but the last has the high bit set, and the last is no zero group
/// unless it is the only byte.
pub proof fn lemma_varint_encoding_bytes<T: Leb128VarIntType>(v: T)
    ensures
        <VarInt<T> as NetEncode<Leb128>>::spec_encode(&VarInt(v)) matches Some(b) && {
            &&& b.len() >= 1
            &&& forall|i: int| 0 <= i < b.len() - 1 ==> #[trigger] b[i] >= 128
            &&& b[b.len() - 1] < 128
            &&& (b.len() == 1 || b[b.len() - 1] != 0)
            &&& forall|i: int| 0 <= i < b.len() ==> #[trigger] b[i] as int % 128
                == v.spec_int() % (pow256(T::spec_size()) as int) / (pow2(7 * i as nat) as int) % 128
        },
{
    v.lemma_raw();
    v.lemma_bits();
    lemma_leb128_bytes_shape(v.spec_bits());
}

/// Decoding a `VarInt` takes bytes with the high bit set up to a last byte with
/// it clear, no more than `8·size / 7` before the last, and gives the value whose
/// bit pattern is the low `8·size` bits of the number their seven-bit groups
/// make, lowest group first.
pub proof fn lemma_varint_decoding_bytes<T: Leb128VarIntType>(bytes: Seq<u8>, v: T, n: nat)
    requires
        <VarInt<T> as NetDecode<Leb128>>::spec_decodes(bytes, VarInt(v), n),
    ensures
        1 <= n <= bytes.len(),
        forall|i: int| 0 <= i < n - 1 ==> #[trigger] bytes[i] >= 128,
        bytes[n - 1] < 128,
        7 * (n - 1) <= 8 * T::spec_size(),
        v.spec_int() % (pow256(T::spec_size()) as int) == (leb128_value(bytes.take(n as int)) % pow256(T::spec_size())) as int,
{
    let w = varint_width::<T>();
    lemma_leb128_scan_shape(bytes, n, w as int);
    v.lemma_raw();
    v.lemma_bits();
    let u = leb128_value(bytes.take(n as int));
    lemma_pow256_pow2(T::spec_size());
    lemma_pow2_positive(w);
    let y = u % pow2(w);
    let r = T::Raw::spec_from_bits(y);
    T::lemma_raw_inverse(r);
    T::Raw::lemma_from_bits(y);
}

/// Bytes with the high bit set up to a last byte with it clear, and no more than
/// `8·size / 7` of them before the last, decode as a `VarInt` that takes exactly
/// those bytes; where the first `8·size / 7 + 1` bytes all have the high bit set,
/// decoding fails as too long.
pub proof fn lemma_varint_decoding_outcome<T: Leb128VarIntType>(bytes: Seq<u8>, n: nat)
    ensures
        ({
            &&& 1 <= n <= bytes.len()
            &&& forall|i: int| 0 <= i < n - 1 ==> #[trigger] bytes[i] >= 128
            &&& bytes[n - 1] < 128
            &&& 7 * (n - 1) <= 8 * T::spec_size()
        }) ==> {
            &&& <VarInt<T> as NetDecode<Leb128>>::spec_decode_error(bytes) is None
            &&& forall|w: VarInt<T>, m: nat| #[trigger] <VarInt<T> as NetDecode<Leb128>>::spec_decodes(bytes, w, m) ==> m == n
        },
        ({
            &&& bytes.len() > 8 * T::spec_size() / 7
            &&& forall|i: int| 0 <= i <= 8 * T::spec_size() / 7 ==> #[trigger] bytes[i] >= 128
        }) ==> <VarInt<T> as NetDecode<Leb128>>::spec_decode_error(bytes) == Some(DecodeError::Leb128TooLong),
{
    let v0 = T::spec_from_bits(0);
    v0.lemma_raw();
    let w = varint_width::<T>();
    lemma_leb128_scan_shape(bytes, n, w as int);
    if bytes.len() > 8 * T::spec_size() / 7 && forall|i: int| 0 <= i <= 8 * T::spec_size() / 7 ==> #[trigger] bytes[i] >= 128 {
        lemma_leb128_scan_too_long(bytes, w as int);
    }
}

} // verus!
