//! UTF-8 strings with a length prefix.
//!
//! A string is written as the number of its UTF-8 bytes, in the format of the
//! prefix type, followed by the bytes themselves.

use crate::bits::{pow2, pow256, NetInt};
use crate::numeric::{
    be_bytes, be_value, le_bytes, le_value, lemma_be_bytes_index, lemma_be_encoding_bytes,
    lemma_le_bytes_index, lemma_le_bytes_len, lemma_le_encoding_bytes, lemma_le_value_of_bytes,
    BigEndian, LittleEndian,
};
use crate::varint::{
    leb128_value, lemma_leb128_shape_scan_ok, lemma_varint_decoding_bytes,
    lemma_varint_encoding_bytes, Leb128, Leb128VarIntType, VarInt,
};
use crate::{DecodeError, EncodeError, NetDecode, NetEncode, NetFormat};
use core::marker::PhantomData;
use std::borrow::Cow;
use vstd::prelude::*;
use vstd::utf8::{decode_utf8, encode_utf8, valid_utf8};

verus! {

/// A string as its byte length, written as a `Len` in the format `LenF`, then its UTF-8 bytes.
#[non_exhaustive]
pub struct Utf8<Len, LenF: NetFormat> {
    _marker: PhantomData<(Len, LenF)>,
}

impl<Len, LenF: NetFormat> NetFormat for Utf8<Len, LenF> {
}

/// A type that can carry a length in the format `F`: it is built from a `usize`
/// where the length fits, and read back as a `usize` where the value fits.
pub trait LengthPrefix<F: NetFormat>: NetEncode<F> + NetDecode<F> + Sized {
    /// The value that stands for the length `n`, or `None` where it does not fit.
    spec fn spec_from_len(n: nat) -> Option<Self>;

    /// The length that the value stands for, or `None` where it is no `usize`.
    spec fn spec_to_len(self) -> Option<nat>;

    /// The value and the byte count that decoding the front of `bytes` gives, where it succeeds.
    spec fn spec_decoded(bytes: Seq<u8>) -> (Self, nat);

    fn try_from_len(n: usize) -> (r: Option<Self>)
        ensures
            r == Self::spec_from_len(n as nat),
    ;

    fn try_to_len(&self) -> (r: Option<usize>)
        ensures
            match r {
                Some(k) => self.spec_to_len() == Some(k as nat),
                None => self.spec_to_len() is None,
            },
    ;

    proof fn lemma_decoded(bytes: Seq<u8>, v: Self, n: nat)
        requires
            Self::spec_decode_error(bytes) is None,
            Self::spec_decodes(bytes, v, n),
        ensures
            Self::spec_decoded(bytes) == (v, n),
    ;

    proof fn lemma_length(n: nat)
        requires
            n <= usize::MAX,
        ensures
            Self::spec_from_len(n) matches Some(v) ==> v.spec_to_len() == Some(n),
    ;

    proof fn lemma_prefix(bytes: Seq<u8>, more: Seq<u8>)
        requires
            Self::spec_decode_error(bytes) is None,
        ensures
            Self::spec_decode_error(bytes + more) is None,
            Self::spec_decoded(bytes + more) == Self::spec_decoded(bytes),
            Self::spec_decoded(bytes).1 <= bytes.len(),
    ;

    proof fn lemma_roundtrip(v: Self, rest: Seq<u8>)
        ensures
            v.spec_encode() matches Some(b) ==> {
                &&& Self::spec_decode_error(b + rest) is None
                &&& Self::spec_decodes(b + rest, v, b.len())
            },
    ;
}

/// `String::from_utf8` from std. Its documentation promises the string made of
/// the bytes where they are valid UTF-8 and an error where they are not; the
/// contract says so over vstd's statement of UTF-8 (`valid_utf8`, `decode_utf8`).
#[verifier::external_body]
fn string_from_utf8(bytes: Vec<u8>) -> (r: Option<String>)
    ensures
        r is Some <==> valid_utf8(bytes@),
        r matches Some(s) ==> s@ == decode_utf8(bytes@),
{
    String::from_utf8(bytes).ok()
}

/// The bytes that encode the string `chars` with a `Len` prefix in the format `LenF`,
/// or `None` where its length does not fit `Len`.
pub open spec fn utf8_encoding<Len: LengthPrefix<LenF>, LenF: NetFormat>(chars: Seq<char>) -> Option<Seq<u8>> {
    let body = encode_utf8(chars);
    match Len::spec_from_len(body.len()) {
        Some(l) => match l.spec_encode() {
            Some(prefix) => Some(prefix + body),
            None => None,
        },
        None => None,
    }
}

/// Why decoding a string from the front of `bytes` fails, or `None` where it succeeds.
pub open spec fn utf8_decode_error<Len: LengthPrefix<LenF>, LenF: NetFormat>(bytes: Seq<u8>) -> Option<DecodeError> {
    match Len::spec_decode_error(bytes) {
        Some(e) => Some(e),
        None => {
            let (l, n) = Len::spec_decoded(bytes);
            match l.spec_to_len() {
                None => Some(DecodeError::LengthOutOfRange),
                Some(k) => if bytes.len() < n + k {
                    Some(DecodeError::UnexpectedEnd)
                } else if !valid_utf8(bytes.subrange(n as int, (n + k) as int)) {
                    Some(DecodeError::InvalidUtf8)
                } else {
                    None
                },
            }
        },
    }
}

/// The characters of the string at the front of `bytes` and the number of bytes
/// it takes, where decoding succeeds.
pub open spec fn utf8_decoded<Len: LengthPrefix<LenF>, LenF: NetFormat>(bytes: Seq<u8>) -> (Seq<char>, nat) {
    let (l, n) = Len::spec_decoded(bytes);
    let k = l.spec_to_len().unwrap();
    (decode_utf8(bytes.subrange(n as int, (n + k) as int)), n + k)
}

/// Appends the encoding of `s`: its length as a `Len` in the format `LenF`, then its UTF-8 bytes.
fn encode_str<Len: LengthPrefix<LenF>, LenF: NetFormat>(s: &str, out: &mut Vec<u8>) -> (r: Result<(), EncodeError>)
    ensures
        r is Ok <==> utf8_encoding::<Len, LenF>(s@) is Some,
        r is Ok ==> final(out)@ == old(out)@ + utf8_encoding::<Len, LenF>(s@).unwrap(),
        r is Err ==> final(out)@ == old(out)@,
{
    let b = s.as_bytes();
    let len = match Len::try_from_len(b.len()) {
        Some(len) => len,
        None => return Err(EncodeError::LengthOutOfRange),
    };
    let r = len.encode(out);
    if r.is_err() {
        return r;
    }
    let ghost start = out@;
    let mut i: usize = 0;
    while i < b.len()
        invariant
            i <= b@.len(),
            out@ == start + b@.take(i as int),
        decreases b@.len() - i,
    {
        out.push(b[i]);
        assert(b@.take(i + 1) =~= b@.take(i as int).push(b@[i as int]));
        i = i + 1;
    }
    assert(b@.take(i as int) =~= b@);
    Ok(())
}

impl<Len: LengthPrefix<LenF>, LenF: NetFormat> NetEncode<Utf8<Len, LenF>> for String {
    open spec fn spec_encode(&self) -> Option<Seq<u8>> {
        utf8_encoding::<Len, LenF>(self@)
    }

    fn encode(&self, out: &mut Vec<u8>) -> (r: Result<(), EncodeError>) {
        encode_str::<Len, LenF>(self.as_str(), out)
    }
}

impl<Len: LengthPrefix<LenF>, LenF: NetFormat> NetEncode<Utf8<Len, LenF>> for str {
    open spec fn spec_encode(&self) -> Option<Seq<u8>> {
        utf8_encoding::<Len, LenF>(self@)
    }

    fn encode(&self, out: &mut Vec<u8>) -> (r: Result<(), EncodeError>) {
        encode_str::<Len, LenF>(self, out)
    }
}

impl<Len: LengthPrefix<LenF>, LenF: NetFormat> NetDecode<Utf8<Len, LenF>> for String {
    open spec fn spec_decodes(bytes: Seq<u8>, v: Self, n: nat) -> bool {
        utf8_decoded::<Len, LenF>(bytes) == (v@, n)
    }

    open spec fn spec_decode_error(bytes: Seq<u8>) -> Option<DecodeError> {
        utf8_decode_error::<Len, LenF>(bytes)
    }

    fn decode(bytes: &[u8]) -> (r: Result<(Self, usize), DecodeError>) {
        let (len, n) = match Len::decode(bytes) {
            Ok(x) => x,
            Err(e) => return Err(e),
        };
        proof { Len::lemma_decoded(bytes@, len, n as nat); }
        let k = match len.try_to_len() {
            Some(k) => k,
            None => return Err(DecodeError::LengthOutOfRange),
        };
        if bytes.len() - n < k {
            return Err(DecodeError::UnexpectedEnd);
        }
        let mut body: Vec<u8> = Vec::new();
        let mut i: usize = 0;
        while i < k
            invariant
                i <= k,
                n + k <= bytes@.len(),
                body@ == bytes@.subrange(n as int, n + i),
            decreases k - i,
        {
            body.push(bytes[n + i]);
            assert(bytes@.subrange(n as int, n + i + 1) =~= bytes@.subrange(n as int, n + i).push(bytes@[n + i]));
            i = i + 1;
        }
        match string_from_utf8(body) {
            Some(s) => Ok((s, n + k)),
            None => Err(DecodeError::InvalidUtf8),
        }
    }
}

impl<'a, Len: LengthPrefix<LenF>, LenF: NetFormat> NetEncode<Utf8<Len, LenF>> for Cow<'a, str> {
    open spec fn spec_encode(&self) -> Option<Seq<u8>> {
        utf8_encoding::<Len, LenF>(self@)
    }

    fn encode(&self, out: &mut Vec<u8>) -> (r: Result<(), EncodeError>) {
        match self {
            Cow::Borrowed(s) => encode_str::<Len, LenF>(s, out),
            Cow::Owned(s) => encode_str::<Len, LenF>(s.as_str(), out),
        }
    }
}

impl<'a, Len: LengthPrefix<LenF>, LenF: NetFormat> NetDecode<Utf8<Len, LenF>> for Cow<'a, str> {
    open spec fn spec_decodes(bytes: Seq<u8>, v: Self, n: nat) -> bool {
        utf8_decoded::<Len, LenF>(bytes) == (v@, n)
    }

    open spec fn spec_decode_error(bytes: Seq<u8>) -> Option<DecodeError> {
        utf8_decode_error::<Len, LenF>(bytes)
    }

    fn decode(bytes: &[u8]) -> (r: Result<(Self, usize), DecodeError>) {
        match <String as NetDecode<Utf8<Len, LenF>>>::decode(bytes) {
            Ok((s, n)) => Ok((Cow::Owned(s), n)),
            Err(e) => Err(e),
        }
    }
}

/// A string read back from its encoding has the same characters, whatever
/// follows it in the buffer, and takes exactly the bytes written.
pub proof fn lemma_utf8_roundtrip<Len: LengthPrefix<LenF>, LenF: NetFormat>(chars: Seq<char>, rest: Seq<u8>)
    requires
        encode_utf8(chars).len() <= usize::MAX,
    ensures
        utf8_encoding::<Len, LenF>(chars) matches Some(b) ==> {
            &&& utf8_decode_error::<Len, LenF>(b + rest) is None
            &&& utf8_decoded::<Len, LenF>(b + rest) == (chars, b.len())
        },
{
    let body = encode_utf8(chars);
    if let Some(l) = Len::spec_from_len(body.len()) {
        if let Some(prefix) = l.spec_encode() {
            let b = prefix + body;
            assert(b + rest =~= prefix + (body + rest));
            Len::lemma_roundtrip(l, body + rest);
            Len::lemma_decoded(b + rest, l, prefix.len());
            Len::lemma_length(body.len());
            assert((b + rest).subrange(prefix.len() as int, (prefix.len() + body.len()) as int) =~= body);
            vstd::utf8::encode_utf8_valid_utf8(chars);
            vstd::utf8::encode_utf8_decode_utf8(chars);
        }
    }
}

/// A string that decodes from `bytes` decodes the same with more bytes after it:
/// decoding reads only the bytes of the string.
pub proof fn lemma_utf8_prefix<Len: LengthPrefix<LenF>, LenF: NetFormat>(bytes: Seq<u8>, more: Seq<u8>)
    requires
        utf8_decode_error::<Len, LenF>(bytes) is None,
    ensures
        utf8_decode_error::<Len, LenF>(bytes + more) is None,
        utf8_decoded::<Len, LenF>(bytes + more) == utf8_decoded::<Len, LenF>(bytes),
{
    Len::lemma_prefix(bytes, more);
    let (l, n) = Len::spec_decoded(bytes);
    let k = l.spec_to_len().unwrap();
    assert((bytes + more).subrange(n as int, (n + k) as int) =~= bytes.subrange(n as int, (n + k) as int));
}

/// With a fixed-width big-endian prefix of type `T`, a string is written as the
/// number of its UTF-8 bytes in `T`'s bytes, most significant first, then
/// those UTF-8 bytes; it can be written exactly when that number is at most `T`'s
/// largest value.
pub proof fn lemma_utf8_be_encoding<T: NetInt>(chars: Seq<char>)
    ensures
        utf8_encoding::<T, BigEndian>(chars) is Some <==> encode_utf8(chars).len() <= T::spec_max(),
        utf8_encoding::<T, BigEndian>(chars) matches Some(b) ==> {
            let k = encode_utf8(chars).len();
            let s = T::spec_size();
            &&& b.len() == s + k
            &&& b.skip(s as int) == encode_utf8(chars)
            &&& forall|i: int| 0 <= i < s ==> #[trigger] b[i] as nat == k / pow256((s - 1 - i) as nat) % 256
        },
{
    let body = encode_utf8(chars);
    let k = body.len();
    let s = T::spec_size();
    T::lemma_range();
    if k <= T::spec_max() {
        let l = T::spec_from_bits(k);
        T::lemma_from_bits(k);
        lemma_be_encoding_bytes(l);
        let p = <T as NetEncode<BigEndian>>::spec_encode(&l).unwrap();
        let b = p + body;
        vstd::arithmetic::div_mod::lemma_small_mod(k, pow256(s));
        assert(k as int % (pow256(s) as int) == k as int);
        assert(b.skip(s as int) =~= body);
        assert forall|i: int| 0 <= i < s implies #[trigger] b[i] as nat == k / pow256((s - 1 - i) as nat) % 256 by {
            assert(b[i] == p[i]);
        }
    }
}

/// With a fixed-width big-endian prefix of type `T`, a buffer whose first `size`
/// bytes are those of the number `k` (most significant first) decodes as the
/// string of the `k` UTF-8 bytes that follow: it fails where `k` is no length (a
/// negative value of `T`, or above `usize::MAX`), where fewer than `k` bytes
/// follow, or where they are not UTF-8.
pub proof fn lemma_utf8_be_decoding<T: NetInt>(bytes: Seq<u8>, k: nat)
    requires
        bytes.len() >= T::spec_size(),
        k < pow256(T::spec_size()),
        forall|i: int| 0 <= i < T::spec_size() ==> {
            let s = T::spec_size();
            #[trigger] bytes[i] as nat == k / pow256((s - 1 - i) as nat) % 256
        },
    ensures
        ({
            let s = T::spec_size();
            utf8_decode_error::<T, BigEndian>(bytes) == if k > T::spec_max() || k > usize::MAX {
                Some(DecodeError::LengthOutOfRange)
            } else if bytes.len() < s + k {
                Some(DecodeError::UnexpectedEnd)
            } else if !valid_utf8(bytes.subrange(s as int, (s + k) as int)) {
                Some(DecodeError::InvalidUtf8)
            } else {
                None
            }
        }),
        utf8_decode_error::<T, BigEndian>(bytes) is None ==> {
            let s = T::spec_size();
            utf8_decoded::<T, BigEndian>(bytes) == (decode_utf8(bytes.subrange(s as int, (s + k) as int)), s + k)
        },
{
    let s = T::spec_size();
    T::lemma_range();
    lemma_le_bytes_len(k, s);
    let w = be_bytes(k, s);
    assert forall|i: int| 0 <= i < s implies #[trigger] w[i] == bytes.take(s as int)[i] by {
        lemma_be_bytes_index(k, s, i as nat);
    }
    assert(bytes.take(s as int) =~= w);
    lemma_le_value_of_bytes(k, s);
    assert(be_value(w) == k) by {
        assert(w.reverse() =~= le_bytes(k, s));
    }
    T::lemma_from_bits(k);
}

/// With a fixed-width little-endian prefix of type `T`, a string is written as the
/// number of its UTF-8 bytes in `T`'s bytes, least significant first, then
/// those UTF-8 bytes; it can be written exactly when that number is at most `T`'s
/// largest value.
pub proof fn lemma_utf8_le_encoding<T: NetInt>(chars: Seq<char>)
    ensures
        utf8_encoding::<T, LittleEndian>(chars) is Some <==> encode_utf8(chars).len() <= T::spec_max(),
        utf8_encoding::<T, LittleEndian>(chars) matches Some(b) ==> {
            let k = encode_utf8(chars).len();
            let s = T::spec_size();
            &&& b.len() == s + k
            &&& b.skip(s as int) == encode_utf8(chars)
            &&& forall|i: int| 0 <= i < s ==> #[trigger] b[i] as nat == k / pow256(i as nat) % 256
        },
{
    let body = encode_utf8(chars);
    let k = body.len();
    let s = T::spec_size();
    T::lemma_range();
    if k <= T::spec_max() {
        let l = T::spec_from_bits(k);
        T::lemma_from_bits(k);
        lemma_le_encoding_bytes(l);
        let p = <T as NetEncode<LittleEndian>>::spec_encode(&l).unwrap();
        let b = p + body;
        vstd::arithmetic::div_mod::lemma_small_mod(k, pow256(s));
        assert(k as int % (pow256(s) as int) == k as int);
        assert(b.skip(s as int) =~= body);
        assert forall|i: int| 0 <= i < s implies #[trigger] b[i] as nat == k / pow256(i as nat) % 256 by {
            assert(b[i] == p[i]);
        }
    }
}

/// With a fixed-width little-endian prefix of type `T`, a buffer whose first `size`
/// bytes are those of the number `k` (least significant first) decodes as the
/// string of the `k` UTF-8 bytes that follow: it fails where `k` is no length (a
/// negative value of `T`, or above `usize::MAX`), where fewer than `k` bytes
/// follow, or where they are not UTF-8.
pub proof fn lemma_utf8_le_decoding<T: NetInt>(bytes: Seq<u8>, k: nat)
    requires
        bytes.len() >= T::spec_size(),
        k < pow256(T::spec_size()),
        forall|i: int| 0 <= i < T::spec_size() ==> {
            let s = T::spec_size();
            #[trigger] bytes[i] as nat == k / pow256(i as nat) % 256
        },
    ensures
        ({
            let s = T::spec_size();
            utf8_decode_error::<T, LittleEndian>(bytes) == if k > T::spec_max() || k > usize::MAX {
                Some(DecodeError::LengthOutOfRange)
            } else if bytes.len() < s + k {
                Some(DecodeError::UnexpectedEnd)
            } else if !valid_utf8(bytes.subrange(s as int, (s + k) as int)) {
                Some(DecodeError::InvalidUtf8)
            } else {
                None
            }
        }),
        utf8_decode_error::<T, LittleEndian>(bytes) is None ==> {
            let s = T::spec_size();
            utf8_decoded::<T, LittleEndian>(bytes) == (decode_utf8(bytes.subrange(s as int, (s + k) as int)), s + k)
        },
{
    let s = T::spec_size();
    T::lemma_range();
    lemma_le_bytes_len(k, s);
    let w = le_bytes(k, s);
    assert forall|i: int| 0 <= i < s implies #[trigger] w[i] == bytes.take(s as int)[i] by {
        lemma_le_bytes_index(k, s, i as nat);
    }
    assert(bytes.take(s as int) =~= w);
    lemma_le_value_of_bytes(k, s);
    assert(le_value(w) == k) by {
        
    }
    T::lemma_from_bits(k);
}

/// With a LEB128 `VarInt<T>` prefix, a string is written as the shortest LEB128
/// bytes of the number of its UTF-8 bytes, then those UTF-8 bytes; it can be
/// written exactly when that number is at most `T`'s largest value.
pub proof fn lemma_utf8_varint_encoding<T: Leb128VarIntType>(chars: Seq<char>)
    ensures
        utf8_encoding::<VarInt<T>, Leb128>(chars) is Some <==> encode_utf8(chars).len() <= T::spec_max(),
        utf8_encoding::<VarInt<T>, Leb128>(chars) matches Some(b) ==> {
            let k = encode_utf8(chars).len();
            let m = b.len() - k;
            &&& m >= 1
            &&& b.skip(m) == encode_utf8(chars)
            &&& forall|i: int| 0 <= i < m - 1 ==> #[trigger] b[i] >= 128
            &&& b[m - 1] < 128
            &&& (m == 1 || b[m - 1] != 0)
            &&& forall|i: int| 0 <= i < m ==> #[trigger] b[i] as nat % 128 == k / pow2(7 * i as nat) % 128
        },
{
    let body = encode_utf8(chars);
    let k = body.len();
    T::lemma_range();
    if k <= T::spec_max() {
        let l = T::spec_from_bits(k);
        T::lemma_from_bits(k);
        lemma_varint_encoding_bytes(l);
        let p = <VarInt<T> as NetEncode<Leb128>>::spec_encode(&VarInt(l)).unwrap();
        let b = p + body;
        let m = p.len();
        assert(b.len() - k == m);
        vstd::arithmetic::div_mod::lemma_small_mod(k, pow256(T::spec_size()));
        assert(k as int % (pow256(T::spec_size()) as int) == k as int);
        assert(b.skip(m as int) =~= body);
        assert(b[m - 1] == p[m - 1]);
        assert forall|i: int| 0 <= i < m - 1 implies #[trigger] b[i] >= 128 by {
            assert(b[i] == p[i]);
        }
        assert forall|i: int| 0 <= i < m implies #[trigger] b[i] as nat % 128 == k / pow2(7 * i as nat) % 128 by {
            assert(b[i] == p[i]);
        }
    }
}

/// With a LEB128 `VarInt<T>` prefix, a buffer that starts with a LEB128 integer
/// of `m` bytes the type has room for decodes as the string of the `k` UTF-8
/// bytes that follow, where `k` is the integer's low `8·size` bits: it fails where
/// `k` is no length (a negative value of `T`, or above `usize::MAX`), where fewer
/// than `k` bytes follow, or where they are not UTF-8.
pub proof fn lemma_utf8_varint_decoding<T: Leb128VarIntType>(bytes: Seq<u8>, m: nat)
    requires
        1 <= m <= bytes.len(),
        forall|i: int| 0 <= i < m - 1 ==> #[trigger] bytes[i] >= 128,
        bytes[m - 1] < 128,
        7 * (m - 1) <= 8 * T::spec_size(),
    ensures
        ({
            let k = leb128_value(bytes.take(m as int)) % pow256(T::spec_size());
            utf8_decode_error::<VarInt<T>, Leb128>(bytes) == if k > T::spec_max() || k > usize::MAX {
                Some(DecodeError::LengthOutOfRange)
            } else if bytes.len() < m + k {
                Some(DecodeError::UnexpectedEnd)
            } else if !valid_utf8(bytes.subrange(m as int, (m + k) as int)) {
                Some(DecodeError::InvalidUtf8)
            } else {
                None
            }
        }),
        utf8_decode_error::<VarInt<T>, Leb128>(bytes) is None ==> {
            let k = leb128_value(bytes.take(m as int)) % pow256(T::spec_size());
            utf8_decoded::<VarInt<T>, Leb128>(bytes) == (decode_utf8(bytes.subrange(m as int, (m + k) as int)), m + k)
        },
{
    let v0 = T::spec_from_bits(0);
    v0.lemma_raw();
    let wdt = crate::varint::varint_width::<T>();
    lemma_leb128_shape_scan_ok(bytes, m, wdt as int);
    let (l, n) = <VarInt<T> as LengthPrefix<Leb128>>::spec_decoded(bytes);
    assert(n == m);
    let v = l.0;
    assert(<VarInt<T> as NetDecode<Leb128>>::spec_decodes(bytes, VarInt(v), m));
    lemma_varint_decoding_bytes(bytes, v, m);
    v.lemma_bits();
    T::lemma_range();
}

} // verus!
