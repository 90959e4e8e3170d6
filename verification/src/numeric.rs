//! Fixed-width integers and booleans, in big- or little-endian byte order.

use crate::bits::{pow256, lemma_pow256_monotonic, lemma_pow256_values, NetInt};
use crate::string::LengthPrefix;
use crate::{DecodeError, EncodeError, NetDecode, NetEncode, NetFormat};
use vstd::prelude::*;

verus! {

/// Integers as their bytes from the most significant down; a boolean as one byte.
#[non_exhaustive]
pub struct BigEndian;

impl NetFormat for BigEndian {
}

/// Integers as their bytes from the least significant up; a boolean as one byte.
#[non_exhaustive]
pub struct LittleEndian;

impl NetFormat for LittleEndian {
}

/// The `n` low bytes of `x`, least significant first.
pub open spec fn le_bytes(x: nat, n: nat) -> Seq<u8>
    decreases n,
{
    if n == 0 {
        Seq::empty()
    } else {
        seq![(x % 256) as u8] + le_bytes(x / 256, (n - 1) as nat)
    }
}

/// The number whose bytes, least significant first, are `s`.
pub open spec fn le_value(s: Seq<u8>) -> nat
    decreases s.len(),
{
    if s.len() == 0 {
        0
    } else {
        s[0] as nat + 256 * le_value(s.drop_first())
    }
}

/// The `n` low bytes of `x`, most significant first.
pub open spec fn be_bytes(x: nat, n: nat) -> Seq<u8> {
    le_bytes(x, n).reverse()
}

/// The number whose bytes, most significant first, are `s`.
pub open spec fn be_value(s: Seq<u8>) -> nat {
    le_value(s.reverse())
}

pub proof fn lemma_le_bytes_len(x: nat, n: nat)
    ensures
        le_bytes(x, n).len() == n,
    decreases n,
{
    if n > 0 {
        lemma_le_bytes_len(x / 256, (n - 1) as nat);
    }
}

pub proof fn lemma_le_value_bound(s: Seq<u8>)
    ensures
        le_value(s) < pow256(s.len()),
    decreases s.len(),
{
    if s.len() > 0 {
        lemma_le_value_bound(s.drop_first());
    }
}

/// Reading back the low `n` bytes of a number below `256^n` gives the number.
pub proof fn lemma_le_value_of_bytes(x: nat, n: nat)
    requires
        x < pow256(n),
    ensures
        le_value(le_bytes(x, n)) == x,
    decreases n,
{
    if n > 0 {
        let s = le_bytes(x, n);
        assert(s.drop_first() =~= le_bytes(x / 256, (n - 1) as nat));
        lemma_le_value_of_bytes(x / 256, (n - 1) as nat);
    }
}

/// Writing out the number that `s` stands for gives `s` again.
pub proof fn lemma_le_bytes_of_value(s: Seq<u8>)
    ensures
        le_bytes(le_value(s), s.len()) == s,
    decreases s.len(),
{
    if s.len() > 0 {
        lemma_le_bytes_of_value(s.drop_first());
        let x = le_value(s);
        assert(x % 256 == s[0] as nat);
        assert(x / 256 == le_value(s.drop_first()));
        assert(le_bytes(x, s.len()) =~= s);
    }
}

/// Appends the `n` low bytes of `x`, least significant first.
fn write_le(x: u128, n: usize, out: &mut Vec<u8>)
    ensures
        final(out)@ == old(out)@ + le_bytes(x as nat, n as nat),
{
    let mut v = x;
    let mut i: usize = 0;
    assert(out@ + le_bytes(v as nat, (n - i) as nat) =~= old(out)@ + le_bytes(x as nat, n as nat));
    while i < n
        invariant
            i <= n,
            out@ + le_bytes(v as nat, (n - i) as nat) == old(out)@ + le_bytes(x as nat, n as nat),
        decreases n - i,
    {
        let ghost before = out@;
        out.push((v % 256) as u8);
        assert(before + le_bytes(v as nat, (n - i) as nat) =~= out@ + le_bytes(
            (v / 256) as nat,
            (n - i - 1) as nat,
        ));
        v = v / 256;
        i = i + 1;
    }
    assert(out@ =~= out@ + le_bytes(v as nat, 0));
}

/// Appends the `n` low bytes of `x`, most significant first.
fn write_be(x: u128, n: usize, out: &mut Vec<u8>)
    ensures
        final(out)@ == old(out)@ + be_bytes(x as nat, n as nat),
{
    let mut low_first: Vec<u8> = Vec::new();
    write_le(x, n, &mut low_first);
    assert(low_first@ =~= le_bytes(x as nat, n as nat));
    proof { lemma_le_bytes_len(x as nat, n as nat); }
    let mut j: usize = n;
    assert(out@ =~= old(out)@ + low_first@.subrange(j as int, n as int).reverse());
    while j > 0
        invariant
            j <= n,
            low_first@.len() == n,
            out@ == old(out)@ + low_first@.subrange(j as int, n as int).reverse(),
        decreases j,
    {
        j = j - 1;
        out.push(low_first[j]);
        assert(low_first@.subrange(j as int, n as int).reverse() =~= low_first@.subrange(
            j + 1,
            n as int,
        ).reverse().push(low_first@[j as int]));
    }
    assert(low_first@.subrange(0, n as int) =~= low_first@);
}

/// The number whose first `n` bytes of `bytes`, least significant first, stand for.
fn read_le(bytes: &[u8], n: usize) -> (r: u128)
    requires
        n <= 16,
        n <= bytes@.len(),
    ensures
        r == le_value(bytes@.take(n as int)),
{
    let mut acc: u128 = 0;
    let mut i: usize = n;
    proof {
        lemma_pow256_values();
        assert(bytes@.subrange(n as int, n as int) =~= Seq::<u8>::empty());
    }
    while i > 0
        invariant
            i <= n <= 16,
            n <= bytes@.len(),
            acc == le_value(bytes@.subrange(i as int, n as int)),
            acc < pow256((n - i) as nat),
            pow256(16) == 0x1_0000_0000_0000_0000_0000_0000_0000_0000,
        decreases i,
    {
        proof { lemma_pow256_monotonic((n - i + 1) as nat, 16); }
        i = i - 1;
        assert(bytes@.subrange(i as int, n as int).drop_first() =~= bytes@.subrange(i + 1, n as int));
        acc = acc * 256 + bytes[i] as u128;
    }
    assert(bytes@.subrange(0, n as int) =~= bytes@.take(n as int));
    acc
}

/// The number whose first `n` bytes of `bytes`, most significant first, stand for.
fn read_be(bytes: &[u8], n: usize) -> (r: u128)
    requires
        n <= 16,
        n <= bytes@.len(),
    ensures
        r == be_value(bytes@.take(n as int)),
{
    let mut acc: u128 = 0;
    let mut i: usize = 0;
    proof {
        lemma_pow256_values();
        assert(bytes@.take(0).reverse() =~= Seq::<u8>::empty());
    }
    while i < n
        invariant
            i <= n <= 16,
            n <= bytes@.len(),
            acc == be_value(bytes@.take(i as int)),
            acc < pow256(i as nat),
            pow256(16) == 0x1_0000_0000_0000_0000_0000_0000_0000_0000,
        decreases n - i,
    {
        proof { lemma_pow256_monotonic((i + 1) as nat, 16); }
        assert(bytes@.take(i + 1).reverse().drop_first() =~= bytes@.take(i as int).reverse());
        acc = acc * 256 + bytes[i] as u128;
        i = i + 1;
    }
    acc
}

impl<T: NetInt> NetEncode<BigEndian> for T {
    open spec fn spec_encode(&self) -> Option<Seq<u8>> {
        Some(be_bytes(self.spec_bits(), T::spec_size()))
    }

    fn encode(&self, out: &mut Vec<u8>) -> (r: Result<(), EncodeError>) {
        write_be(self.to_bits(), T::size(), out);
        Ok(())
    }
}

impl<T: NetInt> NetDecode<BigEndian> for T {
    open spec fn spec_decodes(bytes: Seq<u8>, v: Self, n: nat) -> bool {
        &&& T::spec_size() <= bytes.len()
        &&& n == T::spec_size()
        &&& v == T::spec_from_bits(be_value(bytes.take(T::spec_size() as int)))
    }

    open spec fn spec_decode_error(bytes: Seq<u8>) -> Option<DecodeError> {
        if bytes.len() < T::spec_size() {
            Some(DecodeError::UnexpectedEnd)
        } else {
            None
        }
    }

    fn decode(bytes: &[u8]) -> (r: Result<(Self, usize), DecodeError>) {
        let n = T::size();
        if bytes.len() < n {
            return Err(DecodeError::UnexpectedEnd);
        }
        let u = read_be(bytes, n);
        proof {
            lemma_le_value_bound(bytes@.take(n as int).reverse());
        }
        Ok((T::from_bits(u), n))
    }
}

impl NetEncode<BigEndian> for bool {
    open spec fn spec_encode(&self) -> Option<Seq<u8>> {
        Some(seq![if *self { 1u8 } else { 0u8 }])
    }

    fn encode(&self, out: &mut Vec<u8>) -> (r: Result<(), EncodeError>) {
        out.push(if *self { 1u8 } else { 0u8 });
        Ok(())
    }
}

impl NetDecode<BigEndian> for bool {
    open spec fn spec_decodes(bytes: Seq<u8>, v: Self, n: nat) -> bool {
        &&& 1 <= bytes.len()
        &&& n == 1
        &&& v == (bytes[0] != 0)
    }

    open spec fn spec_decode_error(bytes: Seq<u8>) -> Option<DecodeError> {
        if bytes.len() < 1 {
            Some(DecodeError::UnexpectedEnd)
        } else {
            None
        }
    }

    fn decode(bytes: &[u8]) -> (r: Result<(Self, usize), DecodeError>) {
        if bytes.len() < 1 {
            return Err(DecodeError::UnexpectedEnd);
        }
        Ok((bytes[0] != 0, 1))
    }
}

impl<T: NetInt> NetEncode<LittleEndian> for T {
    open spec fn spec_encode(&self) -> Option<Seq<u8>> {
        Some(le_bytes(self.spec_bits(), T::spec_size()))
    }

    fn encode(&self, out: &mut Vec<u8>) -> (r: Result<(), EncodeError>) {
        write_le(self.to_bits(), T::size(), out);
        Ok(())
    }
}

impl<T: NetInt> NetDecode<LittleEndian> for T {
    open spec fn spec_decodes(bytes: Seq<u8>, v: Self, n: nat) -> bool {
        &&& T::spec_size() <= bytes.len()
        &&& n == T::spec_size()
        &&& v == T::spec_from_bits(le_value(bytes.take(T::spec_size() as int)))
    }

    open spec fn spec_decode_error(bytes: Seq<u8>) -> Option<DecodeError> {
        if bytes.len() < T::spec_size() {
            Some(DecodeError::UnexpectedEnd)
        } else {
            None
        }
    }

    fn decode(bytes: &[u8]) -> (r: Result<(Self, usize), DecodeError>) {
        let n = T::size();
        if bytes.len() < n {
            return Err(DecodeError::UnexpectedEnd);
        }
        let u = read_le(bytes, n);
        proof {
            lemma_le_value_bound(bytes@.take(n as int));
        }
        Ok((T::from_bits(u), n))
    }
}

impl NetEncode<LittleEndian> for bool {
    open spec fn spec_encode(&self) -> Option<Seq<u8>> {
        Some(seq![if *self { 1u8 } else { 0u8 }])
    }

    fn encode(&self, out: &mut Vec<u8>) -> (r: Result<(), EncodeError>) {
        out.push(if *self { 1u8 } else { 0u8 });
        Ok(())
    }
}

impl NetDecode<LittleEndian> for bool {
    open spec fn spec_decodes(bytes: Seq<u8>, v: Self, n: nat) -> bool {
        &&& 1 <= bytes.len()
        &&& n == 1
        &&& v == (bytes[0] != 0)
    }

    open spec fn spec_decode_error(bytes: Seq<u8>) -> Option<DecodeError> {
        if bytes.len() < 1 {
            Some(DecodeError::UnexpectedEnd)
        } else {
            None
        }
    }

    fn decode(bytes: &[u8]) -> (r: Result<(Self, usize), DecodeError>) {
        if bytes.len() < 1 {
            return Err(DecodeError::UnexpectedEnd);
        }
        Ok((bytes[0] != 0, 1))
    }
}

/// Decoding what encoding wrote gives the value back, in big-endian order,
/// whatever follows it in the buffer, and takes exactly the bytes written.
pub proof fn lemma_be_roundtrip<T: NetInt>(v: T, rest: Seq<u8>)
    ensures
        <T as NetEncode<BigEndian>>::spec_encode(&v) matches Some(b) && {
            &&& <T as NetDecode<BigEndian>>::spec_decode_error(b + rest) is None
            &&& <T as NetDecode<BigEndian>>::spec_decodes(b + rest, v, b.len())
        },
{
    let n = T::spec_size();
    let x = v.spec_bits();
    v.lemma_bits();
    lemma_le_bytes_len(x, n);
    let b = be_bytes(x, n);
    assert((b + rest).take(n as int) =~= b);
    lemma_le_value_of_bytes(x, n);
    assert(b.reverse() =~= le_bytes(x, n));
}

/// Every window of the type's size is the big-endian encoding of the value it decodes to.
pub proof fn lemma_be_canonical<T: NetInt>(bytes: Seq<u8>, v: T, n: nat)
    requires
        <T as NetDecode<BigEndian>>::spec_decodes(bytes, v, n),
    ensures
        <T as NetEncode<BigEndian>>::spec_encode(&v) == Some(bytes.take(n as int)),
{
    let s = bytes.take(n as int);
    lemma_le_value_bound(s.reverse());
    T::lemma_from_bits(be_value(s));
    lemma_le_bytes_of_value(s.reverse());
    assert(s.reverse().reverse() =~= s);
}

/// A boolean read back from its big-endian encoding is the same boolean.
pub proof fn lemma_bool_be_roundtrip(b: bool, rest: Seq<u8>)
    ensures
        <bool as NetEncode<BigEndian>>::spec_encode(&b) matches Some(e) && {
            &&& <bool as NetDecode<BigEndian>>::spec_decode_error(e + rest) is None
            &&& <bool as NetDecode<BigEndian>>::spec_decodes(e + rest, b, 1)
        },
{
}

/// Decoding what encoding wrote gives the value back, in little-endian order,
/// whatever follows it in the buffer, and takes exactly the bytes written.
pub proof fn lemma_le_roundtrip<T: NetInt>(v: T, rest: Seq<u8>)
    ensures
        <T as NetEncode<LittleEndian>>::spec_encode(&v) matches Some(b) && {
            &&& <T as NetDecode<LittleEndian>>::spec_decode_error(b + rest) is None
            &&& <T as NetDecode<LittleEndian>>::spec_decodes(b + rest, v, b.len())
        },
{
    let n = T::spec_size();
    let x = v.spec_bits();
    v.lemma_bits();
    lemma_le_bytes_len(x, n);
    let b = le_bytes(x, n);
    assert((b + rest).take(n as int) =~= b);
    lemma_le_value_of_bytes(x, n);
    assert(b =~= le_bytes(x, n));
}

/// Every window of the type's size is the little-endian encoding of the value it decodes to.
pub proof fn lemma_le_canonical<T: NetInt>(bytes: Seq<u8>, v: T, n: nat)
    requires
        <T as NetDecode<LittleEndian>>::spec_decodes(bytes, v, n),
    ensures
        <T as NetEncode<LittleEndian>>::spec_encode(&v) == Some(bytes.take(n as int)),
{
    let s = bytes.take(n as int);
    lemma_le_value_bound(s);
    T::lemma_from_bits(le_value(s));
    lemma_le_bytes_of_value(s);
    assert(s =~= s);
}

/// A boolean read back from its little-endian encoding is the same boolean.
pub proof fn lemma_bool_le_roundtrip(b: bool, rest: Seq<u8>)
    ensures
        <bool as NetEncode<LittleEndian>>::spec_encode(&b) matches Some(e) && {
            &&& <bool as NetDecode<LittleEndian>>::spec_decode_error(e + rest) is None
            &&& <bool as NetDecode<LittleEndian>>::spec_decodes(e + rest, b, 1)
        },
{
}

impl<T: NetInt> LengthPrefix<BigEndian> for T {
    open spec fn spec_from_len(n: nat) -> Option<Self> {
        if n <= T::spec_max() {
            Some(T::spec_from_bits(n))
        } else {
            None
        }
    }

    open spec fn spec_to_len(self) -> Option<nat> {
        if 0 <= self.spec_int() <= usize::MAX {
            Some(self.spec_int() as nat)
        } else {
            None
        }
    }

    open spec fn spec_decoded(bytes: Seq<u8>) -> (Self, nat) {
        (T::spec_from_bits(be_value(bytes.take(T::spec_size() as int))), T::spec_size())
    }

    fn try_from_len(n: usize) -> (r: Option<Self>) {
        if (n as u128) <= T::max() {
            proof {
                T::lemma_range();
                T::lemma_from_bits(n as nat);
            }
            Some(T::from_bits(n as u128))
        } else {
            None
        }
    }

    fn try_to_len(&self) -> (r: Option<usize>) {
        proof { self.lemma_bits(); }
        let b = self.to_bits();
        if b <= T::max() && b <= usize::MAX as u128 {
            Some(b as usize)
        } else {
            None
        }
    }

    proof fn lemma_decoded(bytes: Seq<u8>, v: Self, n: nat) {
    }

    proof fn lemma_length(n: nat) {
        T::lemma_range();
        if n <= T::spec_max() {
            T::lemma_from_bits(n);
        }
    }

    proof fn lemma_prefix(bytes: Seq<u8>, more: Seq<u8>) {
        assert((bytes + more).take(T::spec_size() as int) =~= bytes.take(T::spec_size() as int));
    }

    proof fn lemma_roundtrip(v: Self, rest: Seq<u8>) {
        lemma_be_roundtrip(v, rest);
    }
}

impl<T: NetInt> LengthPrefix<LittleEndian> for T {
    open spec fn spec_from_len(n: nat) -> Option<Self> {
        if n <= T::spec_max() {
            Some(T::spec_from_bits(n))
        } else {
            None
        }
    }

    open spec fn spec_to_len(self) -> Option<nat> {
        if 0 <= self.spec_int() <= usize::MAX {
            Some(self.spec_int() as nat)
        } else {
            None
        }
    }

    open spec fn spec_decoded(bytes: Seq<u8>) -> (Self, nat) {
        (T::spec_from_bits(le_value(bytes.take(T::spec_size() as int))), T::spec_size())
    }

    fn try_from_len(n: usize) -> (r: Option<Self>) {
        if (n as u128) <= T::max() {
            proof {
                T::lemma_range();
                T::lemma_from_bits(n as nat);
            }
            Some(T::from_bits(n as u128))
        } else {
            None
        }
    }

    fn try_to_len(&self) -> (r: Option<usize>) {
        proof { self.lemma_bits(); }
        let b = self.to_bits();
        if b <= T::max() && b <= usize::MAX as u128 {
            Some(b as usize)
        } else {
            None
        }
    }

    proof fn lemma_decoded(bytes: Seq<u8>, v: Self, n: nat) {
    }

    proof fn lemma_length(n: nat) {
        T::lemma_range();
        if n <= T::spec_max() {
            T::lemma_from_bits(n);
        }
    }

    proof fn lemma_prefix(bytes: Seq<u8>, more: Seq<u8>) {
        assert((bytes + more).take(T::spec_size() as int) =~= bytes.take(T::spec_size() as int));
    }

    proof fn lemma_roundtrip(v: Self, rest: Seq<u8>) {
        lemma_le_roundtrip(v, rest);
    }
}

/// A value that decodes from `bytes` in big-endian order decodes the same with
/// more bytes after it: decoding reads only the bytes of the value.
pub proof fn lemma_be_prefix<T: NetInt>(bytes: Seq<u8>, more: Seq<u8>, v: T, n: nat)
    requires
        <T as NetDecode<BigEndian>>::spec_decode_error(bytes) is None,
        <T as NetDecode<BigEndian>>::spec_decodes(bytes, v, n),
    ensures
        <T as NetDecode<BigEndian>>::spec_decode_error(bytes + more) is None,
        <T as NetDecode<BigEndian>>::spec_decodes(bytes + more, v, n),
{
    assert((bytes + more).take(T::spec_size() as int) =~= bytes.take(T::spec_size() as int));
}

/// A value that decodes from `bytes` in little-endian order decodes the same with
/// more bytes after it: decoding reads only the bytes of the value.
pub proof fn lemma_le_prefix<T: NetInt>(bytes: Seq<u8>, more: Seq<u8>, v: T, n: nat)
    requires
        <T as NetDecode<LittleEndian>>::spec_decode_error(bytes) is None,
        <T as NetDecode<LittleEndian>>::spec_decodes(bytes, v, n),
    ensures
        <T as NetDecode<LittleEndian>>::spec_decode_error(bytes + more) is None,
        <T as NetDecode<LittleEndian>>::spec_decodes(bytes + more, v, n),
{
    assert((bytes + more).take(T::spec_size() as int) =~= bytes.take(T::spec_size() as int));
}

/// Byte `i` of the `n` low bytes of `x`, least significant first, is `x / 256^i` modulo 256.
pub proof fn lemma_le_bytes_index(x: nat, n: nat, i: nat)
    requires
        i < n,
    ensures
        le_bytes(x, n)[i as int] as nat == (x / pow256(i)) % 256,
    decreases i,
{
    if i == 0 {
        assert(x / 1 == x);
    } else {
        lemma_le_bytes_index(x / 256, (n - 1) as nat, (i - 1) as nat);
        lemma_le_bytes_len(x / 256, (n - 1) as nat);
        let tail = le_bytes(x / 256, (n - 1) as nat);
        assert(le_bytes(x, n) == seq![(x % 256) as u8] + tail);
        assert((seq![(x % 256) as u8] + tail)[i as int] == tail[i - 1]);
        crate::bits::lemma_pow256_positive((i - 1) as nat);
        vstd::arithmetic::div_mod::lemma_div_denominator(x as int, 256, pow256((i - 1) as nat) as int);
        assert(pow256(i) == 256 * pow256((i - 1) as nat));
    }
}

/// Byte `i` of the `n` low bytes of `x`, most significant first, is `x / 256^(n-1-i)` modulo 256.
pub proof fn lemma_be_bytes_index(x: nat, n: nat, i: nat)
    requires
        i < n,
    ensures
        be_bytes(x, n)[i as int] as nat == (x / pow256((n - 1 - i) as nat)) % 256,
{
    lemma_le_bytes_len(x, n);
    lemma_le_bytes_index(x, n, (n - 1 - i) as nat);
}

/// Big-endian order writes the value's two's-complement bytes most significant
/// first: of the type's `size` bytes, byte `i` is the value modulo `256^size`,
/// divided by `256^(size-1-i)`, modulo 256.
pub proof fn lemma_be_encoding_bytes<T: NetInt>(v: T)
    ensures
        <T as NetEncode<BigEndian>>::spec_encode(&v) matches Some(b) && {
            &&& b.len() == T::spec_size()
            &&& forall|i: int| 0 <= i < b.len() ==> #[trigger] b[i] as int
                == (v.spec_int() % (pow256(T::spec_size()) as int)) / (pow256((T::spec_size() - 1 - i) as nat) as int) % 256
        },
{
    let n = T::spec_size();
    let x = v.spec_bits();
    v.lemma_bits();
    lemma_le_bytes_len(x, n);
    let b = be_bytes(x, n);
    assert forall|i: int| 0 <= i < b.len() implies #[trigger] b[i] as int
        == (v.spec_int() % (pow256(n) as int)) / (pow256((n - 1 - i) as nat) as int) % 256 by {
        lemma_be_bytes_index(x, n, i as nat);
    }
}

/// Little-endian order writes the value's two's-complement bytes least
/// significant first: of the type's `size` bytes, byte `i` is the value modulo
/// `256^size`, divided by `256^i`, modulo 256.
pub proof fn lemma_le_encoding_bytes<T: NetInt>(v: T)
    ensures
        <T as NetEncode<LittleEndian>>::spec_encode(&v) matches Some(b) && {
            &&& b.len() == T::spec_size()
            &&& forall|i: int| 0 <= i < b.len() ==> #[trigger] b[i] as int
                == (v.spec_int() % (pow256(T::spec_size()) as int)) / (pow256(i as nat) as int) % 256
        },
{
    let n = T::spec_size();
    let x = v.spec_bits();
    v.lemma_bits();
    lemma_le_bytes_len(x, n);
    let b = le_bytes(x, n);
    assert forall|i: int| 0 <= i < b.len() implies #[trigger] b[i] as int
        == (v.spec_int() % (pow256(n) as int)) / (pow256(i as nat) as int) % 256 by {
        lemma_le_bytes_index(x, n, i as nat);
    }
}

/// Decoding in big-endian order succeeds exactly when the type's size in bytes is
/// there, takes that many, and gives the value whose bytes, most significant first,
/// they are.
pub proof fn lemma_be_decoding_bytes<T: NetInt>(bytes: Seq<u8>, v: T, n: nat)
    ensures
        <T as NetDecode<BigEndian>>::spec_decode_error(bytes) is None <==> bytes.len() >= T::spec_size(),
        <T as NetDecode<BigEndian>>::spec_decodes(bytes, v, n) ==> {
            &&& n == T::spec_size()
            &&& forall|i: int| 0 <= i < n ==> #[trigger] bytes[i] as int
                == (v.spec_int() % (pow256(T::spec_size()) as int)) / (pow256((T::spec_size() - 1 - i) as nat) as int) % 256
        },
{
    if <T as NetDecode<BigEndian>>::spec_decodes(bytes, v, n) {
        lemma_be_canonical(bytes, v, n);
        lemma_be_encoding_bytes(v);
        assert forall|i: int| 0 <= i < n implies #[trigger] bytes[i] as int
            == (v.spec_int() % (pow256(T::spec_size()) as int)) / (pow256((T::spec_size() - 1 - i) as nat) as int) % 256 by {
            assert(bytes.take(n as int)[i] == bytes[i]);
        }
    }
}

/// Decoding in little-endian order succeeds exactly when the type's size in bytes
/// is there, takes that many, and gives the value whose bytes, least significant
/// first, they are.
pub proof fn lemma_le_decoding_bytes<T: NetInt>(bytes: Seq<u8>, v: T, n: nat)
    ensures
        <T as NetDecode<LittleEndian>>::spec_decode_error(bytes) is None <==> bytes.len() >= T::spec_size(),
        <T as NetDecode<LittleEndian>>::spec_decodes(bytes, v, n) ==> {
            &&& n == T::spec_size()
            &&& forall|i: int| 0 <= i < n ==> #[trigger] bytes[i] as int
                == (v.spec_int() % (pow256(T::spec_size()) as int)) / (pow256(i as nat) as int) % 256
        },
{
    if <T as NetDecode<LittleEndian>>::spec_decodes(bytes, v, n) {
        lemma_le_canonical(bytes, v, n);
        lemma_le_encoding_bytes(v);
        assert forall|i: int| 0 <= i < n implies #[trigger] bytes[i] as int
            == (v.spec_int() % (pow256(T::spec_size()) as int)) / (pow256(i as nat) as int) % 256 by {
            assert(bytes.take(n as int)[i] == bytes[i]);
        }
    }
}

/// In big-endian order a boolean is one byte, `1` for true and `0` for false;
/// decoding needs one byte and reads any byte but `0` as true.
pub proof fn lemma_bool_be_bytes(b: bool, bytes: Seq<u8>, v: bool, n: nat)
    ensures
        <bool as NetEncode<BigEndian>>::spec_encode(&b) == Some(seq![if b { 1u8 } else { 0u8 }]),
        <bool as NetDecode<BigEndian>>::spec_decode_error(bytes) is None <==> bytes.len() >= 1,
        <bool as NetDecode<BigEndian>>::spec_decodes(bytes, v, n) ==> n == 1 && v == (bytes[0] != 0),
{
}

/// In little-endian order a boolean is one byte, `1` for true and `0` for false;
/// decoding needs one byte and reads any byte but `0` as true.
pub proof fn lemma_bool_le_bytes(b: bool, bytes: Seq<u8>, v: bool, n: nat)
    ensures
        <bool as NetEncode<LittleEndian>>::spec_encode(&b) == Some(seq![if b { 1u8 } else { 0u8 }]),
        <bool as NetDecode<LittleEndian>>::spec_decode_error(bytes) is None <==> bytes.len() >= 1,
        <bool as NetDecode<LittleEndian>>::spec_decodes(bytes, v, n) ==> n == 1 && v == (bytes[0] != 0),
{
}

} // verus!
