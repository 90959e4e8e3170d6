//! The integer types that the formats carry, seen as bit patterns of a fixed width.

use vstd::prelude::*;

verus! {

/// `256` to the power `n`: the number of distinct values of `n` bytes.
pub open spec fn pow256(n: nat) -> nat
    decreases n,
{
    if n == 0 {
        1
    } else {
        256 * pow256((n - 1) as nat)
    }
}

pub proof fn lemma_pow256_values()
    ensures
        pow256(1) == 0x100,
        pow256(2) == 0x1_0000,
        pow256(4) == 0x1_0000_0000,
        pow256(8) == 0x1_0000_0000_0000_0000,
        pow256(16) == 0x1_0000_0000_0000_0000_0000_0000_0000_0000,
{
    reveal_with_fuel(pow256, 17);
}

pub proof fn lemma_pow256_monotonic(a: nat, b: nat)
    requires
        a <= b,
    ensures
        pow256(a) <= pow256(b),
    decreases b,
{
    if a < b {
        lemma_pow256_monotonic(a, (b - 1) as nat);
    }
}

pub proof fn lemma_pow256_positive(n: nat)
    ensures
        pow256(n) >= 1,
    decreases n,
{
    if n > 0 {
        lemma_pow256_positive((n - 1) as nat);
    }
}

/// `2` to the power `e`.
pub open spec fn pow2(e: nat) -> nat
    decreases e,
{
    if e == 0 {
        1
    } else {
        2 * pow2((e - 1) as nat)
    }
}

pub proof fn lemma_pow2_add(a: nat, b: nat)
    ensures
        pow2(a + b) == pow2(a) * pow2(b),
    decreases b,
{
    if b > 0 {
        lemma_pow2_add(a, (b - 1) as nat);
        assert(pow2(a + b) == 2 * pow2((a + b - 1) as nat));
        let x = pow2(a);
        let y = pow2((b - 1) as nat);
        assert(2 * (x * y) == x * (2 * y)) by (nonlinear_arith);
        assert(pow2(b) == 2 * y);
        let c: nat = (b - 1) as nat;
        assert(a + c == (a + b - 1) as nat);
        assert(pow2(a + c) == x * y);
        assert(pow2(a + b) == 2 * (x * y));
        assert(x * (2 * y) == x * pow2(b));
    } else {
        assert(pow2(b) == 1);
        assert(a + b == a);
        assert(pow2(a) * 1 == pow2(a));
    }
}

pub proof fn lemma_pow2_positive(e: nat)
    ensures
        pow2(e) >= 1,
    decreases e,
{
    if e > 0 {
        lemma_pow2_positive((e - 1) as nat);
    }
}

pub proof fn lemma_pow2_monotonic(a: nat, b: nat)
    requires
        a <= b,
    ensures
        pow2(a) <= pow2(b),
    decreases b,
{
    lemma_pow2_positive(a);
    if a < b {
        lemma_pow2_monotonic(a, (b - 1) as nat);
    }
}

/// `256^n` is `2^(8n)`.
pub proof fn lemma_pow256_pow2(n: nat)
    ensures
        pow256(n) == pow2(8 * n),
    decreases n,
{
    if n > 0 {
        lemma_pow256_pow2((n - 1) as nat);
        lemma_pow2_add(8, (8 * n - 8) as nat);
        reveal_with_fuel(pow2, 9);
        assert(8 + (8 * n - 8) == 8 * n);
    }
}

/// Adding a multiple of `2^s` above a number below `2^s`, then keeping `w` bits,
/// keeps the number and the low `w - s` bits of the multiplier.
pub proof fn lemma_truncate_sum(a: nat, d: nat, s: nat, w: nat)
    requires
        a < pow2(s),
        s <= w,
    ensures
        (a + d * pow2(s)) % pow2(w) == a + (d % pow2((w - s) as nat)) * pow2(s),
{
    let m = pow2((w - s) as nat);
    let p = pow2(s);
    lemma_pow2_positive((w - s) as nat);
    lemma_pow2_add(s, (w - s) as nat);
    assert(pow2(w) == p * m) by {
        assert(s + (w - s) == w);
    }
    let q = d / m;
    let r = d % m;
    assert(d == q * m + r) by (nonlinear_arith)
        requires
            m > 0,
            q == d / m,
            r == d % m,
    ;
    assert(0 <= r < m);
    assert(a + d * p == q * (p * m) + (a + r * p)) by (nonlinear_arith)
        requires
            d == q * m + r,
    ;
    assert(a + r * p < p * m) by (nonlinear_arith)
        requires
            a < p,
            r < m,
            r >= 0,
    ;
    vstd::arithmetic::div_mod::lemma_fundamental_div_mod_converse(
        (a + d * p) as int,
        (p * m) as int,
        q as int,
        (a + r * p) as int,
    );
}

/// The smallest value of the type `T`.
pub open spec fn int_min<T: NetInt>() -> int {
    if T::spec_signed() {
        -(T::spec_max() + 1)
    } else {
        0
    }
}

/// An integer type of a fixed number of bytes, with its two's-complement bit pattern.
pub trait NetInt: Copy + Sized {
    /// The number of bytes of the type.
    spec fn spec_size() -> nat;

    /// The value as a mathematical integer.
    spec fn spec_int(self) -> int;

    /// The bit pattern: the value modulo `256^size`.
    spec fn spec_bits(self) -> nat;

    /// The value whose bit pattern is `u`.
    spec fn spec_from_bits(u: nat) -> Self;

    /// The largest value of the type.
    spec fn spec_max() -> nat;

    /// Whether the type holds negative values.
    spec fn spec_signed() -> bool;

    fn signed() -> (r: bool)
        ensures
            r == Self::spec_signed(),
    ;

    fn max() -> (r: u128)
        ensures
            r == Self::spec_max(),
    ;

    fn size() -> (r: usize)
        ensures
            r == Self::spec_size(),
            1 <= r <= 16,
    ;

    fn to_bits(self) -> (r: u128)
        ensures
            r == self.spec_bits(),
    ;

    fn from_bits(u: u128) -> (r: Self)
        requires
            u < pow256(Self::spec_size()),
        ensures
            r == Self::spec_from_bits(u as nat),
    ;

    proof fn lemma_bits(self)
        ensures
            1 <= Self::spec_size() <= 16,
            self.spec_bits() < pow256(Self::spec_size()),
            self.spec_bits() == self.spec_int() % (pow256(Self::spec_size()) as int),
            Self::spec_from_bits(self.spec_bits()) == self,
            self.spec_int() <= Self::spec_max(),
            self.spec_int() >= 0 ==> self.spec_bits() == self.spec_int(),
            self.spec_int() < 0 ==> self.spec_bits() > Self::spec_max(),
            self.spec_int() < 0 ==> self.spec_bits() == self.spec_int() + pow256(Self::spec_size()),
            Self::spec_signed() ==> self.spec_int() >= -(Self::spec_max() + 1),
            !Self::spec_signed() ==> self.spec_int() >= 0,
    ;

    proof fn lemma_from_bits(u: nat)
        requires
            u < pow256(Self::spec_size()),
        ensures
            Self::spec_from_bits(u).spec_bits() == u,
            u <= Self::spec_max() ==> Self::spec_from_bits(u).spec_int() == u,
            u > Self::spec_max() ==> Self::spec_from_bits(u).spec_int() == u - pow256(Self::spec_size()),
    ;

    proof fn lemma_range()
        ensures
            1 <= Self::spec_size() <= 16,
            Self::spec_max() < pow256(Self::spec_size()),
            Self::spec_signed() ==> pow256(Self::spec_size()) == 2 * (Self::spec_max() + 1),
            !Self::spec_signed() ==> pow256(Self::spec_size()) == Self::spec_max() + 1,
    ;
}

impl NetInt for u8 {
    open spec fn spec_signed() -> bool {
        false
    }

    fn signed() -> (r: bool) {
        false
    }

    open spec fn spec_max() -> nat {
        0xff
    }

    fn max() -> (r: u128) {
        0xff
    }

    open spec fn spec_size() -> nat {
        1
    }

    open spec fn spec_int(self) -> int {
        self as int
    }

    open spec fn spec_bits(self) -> nat {
        self as nat
    }

    open spec fn spec_from_bits(u: nat) -> Self {
        u as u8
    }

    fn size() -> (r: usize) {
        1
    }

    fn to_bits(self) -> (r: u128) {
        self as u128
    }

    fn from_bits(u: u128) -> (r: Self) {
        proof { lemma_pow256_values(); }
        u as u8
    }

    proof fn lemma_bits(self) {
        lemma_pow256_values();
    }

    proof fn lemma_from_bits(u: nat) {
        lemma_pow256_values();
    }

    proof fn lemma_range() {
        lemma_pow256_values();
    }
}

impl NetInt for i8 {
    open spec fn spec_signed() -> bool {
        true
    }

    fn signed() -> (r: bool) {
        true
    }

    open spec fn spec_max() -> nat {
        0x7f
    }

    fn max() -> (r: u128) {
        0x7f
    }

    open spec fn spec_size() -> nat {
        1
    }

    open spec fn spec_int(self) -> int {
        self as int
    }

    open spec fn spec_bits(self) -> nat {
        if self >= 0 { self as nat } else { (self + 0x100) as nat }
    }

    open spec fn spec_from_bits(u: nat) -> Self {
        if u < 0x80 { u as i8 } else { (u - 0x100) as i8 }
    }

    fn size() -> (r: usize) {
        1
    }

    fn to_bits(self) -> (r: u128) {
        if self >= 0 {
            self as u128
        } else {
            ((self - i8::MIN) as u128) + 0x80
        }
    }

    fn from_bits(u: u128) -> (r: Self) {
        proof { lemma_pow256_values(); }
        if u < 0x80 {
            u as i8
        } else {
            ((u - 0x80) as i8) + i8::MIN
        }
    }

    proof fn lemma_bits(self) {
        lemma_pow256_values();
    }

    proof fn lemma_from_bits(u: nat) {
        lemma_pow256_values();
    }

    proof fn lemma_range() {
        lemma_pow256_values();
    }
}

impl NetInt for u16 {
    open spec fn spec_signed() -> bool {
        false
    }

    fn signed() -> (r: bool) {
        false
    }

    open spec fn spec_max() -> nat {
        0xffff
    }

    fn max() -> (r: u128) {
        0xffff
    }

    open spec fn spec_size() -> nat {
        2
    }

    open spec fn spec_int(self) -> int {
        self as int
    }

    open spec fn spec_bits(self) -> nat {
        self as nat
    }

    open spec fn spec_from_bits(u: nat) -> Self {
        u as u16
    }

    fn size() -> (r: usize) {
        2
    }

    fn to_bits(self) -> (r: u128) {
        self as u128
    }

    fn from_bits(u: u128) -> (r: Self) {
        proof { lemma_pow256_values(); }
        u as u16
    }

    proof fn lemma_bits(self) {
        lemma_pow256_values();
    }

    proof fn lemma_from_bits(u: nat) {
        lemma_pow256_values();
    }

    proof fn lemma_range() {
        lemma_pow256_values();
    }
}

impl NetInt for u32 {
    open spec fn spec_signed() -> bool {
        false
    }

    fn signed() -> (r: bool) {
        false
    }

    open spec fn spec_max() -> nat {
        0xffff_ffff
    }

    fn max() -> (r: u128) {
        0xffff_ffff
    }

    open spec fn spec_size() -> nat {
        4
    }

    open spec fn spec_int(self) -> int {
        self as int
    }

    open spec fn spec_bits(self) -> nat {
        self as nat
    }

    open spec fn spec_from_bits(u: nat) -> Self {
        u as u32
    }

    fn size() -> (r: usize) {
        4
    }

    fn to_bits(self) -> (r: u128) {
        self as u128
    }

    fn from_bits(u: u128) -> (r: Self) {
        proof { lemma_pow256_values(); }
        u as u32
    }

    proof fn lemma_bits(self) {
        lemma_pow256_values();
    }

    proof fn lemma_from_bits(u: nat) {
        lemma_pow256_values();
    }

    proof fn lemma_range() {
        lemma_pow256_values();
    }
}

impl NetInt for u64 {
    open spec fn spec_signed() -> bool {
        false
    }

    fn signed() -> (r: bool) {
        false
    }

    open spec fn spec_max() -> nat {
        0xffff_ffff_ffff_ffff
    }

    fn max() -> (r: u128) {
        0xffff_ffff_ffff_ffff
    }

    open spec fn spec_size() -> nat {
        8
    }

    open spec fn spec_int(self) -> int {
        self as int
    }

    open spec fn spec_bits(self) -> nat {
        self as nat
    }

    open spec fn spec_from_bits(u: nat) -> Self {
        u as u64
    }

    fn size() -> (r: usize) {
        8
    }

    fn to_bits(self) -> (r: u128) {
        self as u128
    }

    fn from_bits(u: u128) -> (r: Self) {
        proof { lemma_pow256_values(); }
        u as u64
    }

    proof fn lemma_bits(self) {
        lemma_pow256_values();
    }

    proof fn lemma_from_bits(u: nat) {
        lemma_pow256_values();
    }

    proof fn lemma_range() {
        lemma_pow256_values();
    }
}

impl NetInt for u128 {
    open spec fn spec_signed() -> bool {
        false
    }

    fn signed() -> (r: bool) {
        false
    }

    open spec fn spec_max() -> nat {
        0xffff_ffff_ffff_ffff_ffff_ffff_ffff_ffff
    }

    fn max() -> (r: u128) {
        0xffff_ffff_ffff_ffff_ffff_ffff_ffff_ffff
    }

    open spec fn spec_size() -> nat {
        16
    }

    open spec fn spec_int(self) -> int {
        self as int
    }

    open spec fn spec_bits(self) -> nat {
        self as nat
    }

    open spec fn spec_from_bits(u: nat) -> Self {
        u as u128
    }

    fn size() -> (r: usize) {
        16
    }

    fn to_bits(self) -> (r: u128) {
        self as u128
    }

    fn from_bits(u: u128) -> (r: Self) {
        proof { lemma_pow256_values(); }
        u
    }

    proof fn lemma_bits(self) {
        lemma_pow256_values();
    }

    proof fn lemma_from_bits(u: nat) {
        lemma_pow256_values();
    }

    proof fn lemma_range() {
        lemma_pow256_values();
    }
}

impl NetInt for i16 {
    open spec fn spec_signed() -> bool {
        true
    }

    fn signed() -> (r: bool) {
        true
    }

    open spec fn spec_max() -> nat {
        0x7fff
    }

    fn max() -> (r: u128) {
        0x7fff
    }

    open spec fn spec_size() -> nat {
        2
    }

    open spec fn spec_int(self) -> int {
        self as int
    }

    open spec fn spec_bits(self) -> nat {
        if self >= 0 { self as nat } else { (self + 0x1_0000) as nat }
    }

    open spec fn spec_from_bits(u: nat) -> Self {
        if u < 0x8000 { u as i16 } else { (u - 0x1_0000) as i16 }
    }

    fn size() -> (r: usize) {
        2
    }

    fn to_bits(self) -> (r: u128) {
        if self >= 0 {
            self as u128
        } else {
            ((self - i16::MIN) as u128) + 0x8000
        }
    }

    fn from_bits(u: u128) -> (r: Self) {
        proof { lemma_pow256_values(); }
        if u < 0x8000 {
            u as i16
        } else {
            ((u - 0x8000) as i16) + i16::MIN
        }
    }

    proof fn lemma_bits(self) {
        lemma_pow256_values();
    }

    proof fn lemma_from_bits(u: nat) {
        lemma_pow256_values();
    }

    proof fn lemma_range() {
        lemma_pow256_values();
    }
}

impl NetInt for i32 {
    open spec fn spec_signed() -> bool {
        true
    }

    fn signed() -> (r: bool) {
        true
    }

    open spec fn spec_max() -> nat {
        0x7fff_ffff
    }

    fn max() -> (r: u128) {
        0x7fff_ffff
    }

    open spec fn spec_size() -> nat {
        4
    }

    open spec fn spec_int(self) -> int {
        self as int
    }

    open spec fn spec_bits(self) -> nat {
        if self >= 0 { self as nat } else { (self + 0x1_0000_0000) as nat }
    }

    open spec fn spec_from_bits(u: nat) -> Self {
        if u < 0x8000_0000 { u as i32 } else { (u - 0x1_0000_0000) as i32 }
    }

    fn size() -> (r: usize) {
        4
    }

    fn to_bits(self) -> (r: u128) {
        if self >= 0 {
            self as u128
        } else {
            ((self - i32::MIN) as u128) + 0x8000_0000
        }
    }

    fn from_bits(u: u128) -> (r: Self) {
        proof { lemma_pow256_values(); }
        if u < 0x8000_0000 {
            u as i32
        } else {
            ((u - 0x8000_0000) as i32) + i32::MIN
        }
    }

    proof fn lemma_bits(self) {
        lemma_pow256_values();
    }

    proof fn lemma_from_bits(u: nat) {
        lemma_pow256_values();
    }

    proof fn lemma_range() {
        lemma_pow256_values();
    }
}

impl NetInt for i64 {
    open spec fn spec_signed() -> bool {
        true
    }

    fn signed() -> (r: bool) {
        true
    }

    open spec fn spec_max() -> nat {
        0x7fff_ffff_ffff_ffff
    }

    fn max() -> (r: u128) {
        0x7fff_ffff_ffff_ffff
    }

    open spec fn spec_size() -> nat {
        8
    }

    open spec fn spec_int(self) -> int {
        self as int
    }

    open spec fn spec_bits(self) -> nat {
        if self >= 0 { self as nat } else { (self + 0x1_0000_0000_0000_0000) as nat }
    }

    open spec fn spec_from_bits(u: nat) -> Self {
        if u < 0x8000_0000_0000_0000 { u as i64 } else { (u - 0x1_0000_0000_0000_0000) as i64 }
    }

    fn size() -> (r: usize) {
        8
    }

    fn to_bits(self) -> (r: u128) {
        if self >= 0 {
            self as u128
        } else {
            ((self - i64::MIN) as u128) + 0x8000_0000_0000_0000
        }
    }

    fn from_bits(u: u128) -> (r: Self) {
        proof { lemma_pow256_values(); }
        if u < 0x8000_0000_0000_0000 {
            u as i64
        } else {
            ((u - 0x8000_0000_0000_0000) as i64) + i64::MIN
        }
    }

    proof fn lemma_bits(self) {
        lemma_pow256_values();
    }

    proof fn lemma_from_bits(u: nat) {
        lemma_pow256_values();
    }

    proof fn lemma_range() {
        lemma_pow256_values();
    }
}

impl NetInt for i128 {
    open spec fn spec_signed() -> bool {
        true
    }

    fn signed() -> (r: bool) {
        true
    }

    open spec fn spec_max() -> nat {
        0x7fff_ffff_ffff_ffff_ffff_ffff_ffff_ffff
    }

    fn max() -> (r: u128) {
        0x7fff_ffff_ffff_ffff_ffff_ffff_ffff_ffff
    }

    open spec fn spec_size() -> nat {
        16
    }

    open spec fn spec_int(self) -> int {
        self as int
    }

    open spec fn spec_bits(self) -> nat {
        if self >= 0 { self as nat } else { (self + 0x1_0000_0000_0000_0000_0000_0000_0000_0000) as nat }
    }

    open spec fn spec_from_bits(u: nat) -> Self {
        if u < 0x8000_0000_0000_0000_0000_0000_0000_0000 { u as i128 } else { (u - 0x1_0000_0000_0000_0000_0000_0000_0000_0000) as i128 }
    }

    fn size() -> (r: usize) {
        16
    }

    fn to_bits(self) -> (r: u128) {
        if self >= 0 {
            self as u128
        } else {
            ((self - i128::MIN) as u128) + 0x8000_0000_0000_0000_0000_0000_0000_0000
        }
    }

    fn from_bits(u: u128) -> (r: Self) {
        proof { lemma_pow256_values(); }
        if u < 0x8000_0000_0000_0000_0000_0000_0000_0000 {
            u as i128
        } else {
            ((u - 0x8000_0000_0000_0000_0000_0000_0000_0000) as i128) + i128::MIN
        }
    }

    proof fn lemma_bits(self) {
        lemma_pow256_values();
    }

    proof fn lemma_from_bits(u: nat) {
        lemma_pow256_values();
    }

    proof fn lemma_range() {
        lemma_pow256_values();
    }
}

/// The value of type `T` equal to `s`, or `None` where `T` cannot hold it.
pub fn convert<S: NetInt, T: NetInt>(s: S) -> (r: Option<T>)
    ensures
        r is Some <==> int_min::<T>() <= s.spec_int() <= T::spec_max(),
        r matches Some(t) ==> t.spec_int() == s.spec_int(),
{
    proof {
        s.lemma_bits();
        S::lemma_range();
        T::lemma_range();
    }
    let b = s.to_bits();
    let tmax = T::max();
    assert(int_min::<T>() <= 0);
    if b <= S::max() {
        assert(s.spec_int() == b);
        if b <= tmax {
            proof { T::lemma_from_bits(b as nat); }
            Some(T::from_bits(b))
        } else {
            None
        }
    } else {
        let smax = S::max();
        assert(s.spec_int() < 0);
        assert(S::spec_signed());
        let m = smax - (b - smax - 1) + 1;
        assert(m == -s.spec_int());
        proof {
            lemma_pow256_monotonic(T::spec_size(), 16);
            lemma_pow256_values();
        }
        if T::signed() && m <= tmax + 1 {
            let tb = (tmax + 1 - m) + (tmax + 1);
            proof { T::lemma_from_bits(tb as nat); }
            Some(T::from_bits(tb))
        } else {
            None
        }
    }
}

} // verus!
