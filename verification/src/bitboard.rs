//! Fixed-width sets of small integers, stored as the set bits of a machine word.
use vstd::prelude::*;
use vstd::std_specs::bits::{u64_trailing_zeros, axiom_u64_trailing_zeros};
use crate::common::{chars_to_string, digit_char, numeral, push_numeral, push_str};

verus! {

/// A machine word that can back a [`Bitboard`]: one of `u64` or `u128`.
///
/// `bit(x, i)` is the `i`-th bit of `x`, counted from the least significant one;
/// it is false for every `i` at or beyond the width of the word.
pub trait BitboardInt: Copy + Eq + Ord + core::fmt::Debug + Sized {
    spec fn width() -> nat;

    spec fn bit(self, i: nat) -> bool;

    /// The number the word holds.
    spec fn as_nat(self) -> nat;

    /// The bits of a word are those of the number it holds.
    proof fn lemma_bit_as_nat(x: Self, i: nat)
        ensures
            x.as_nat() < 0x1_0000_0000_0000_0000_0000_0000_0000_0000,
            x.bit(i) == bit128(x.as_nat() as u128, i),
    ;

    proof fn lemma_width()
        ensures
            Self::width() == 64 || Self::width() == 128,
    ;

    proof fn lemma_bit_in_range(x: Self, i: nat)
        ensures
            x.bit(i) ==> i < Self::width(),
    ;

    /// Two words with the same bits are the same word.
    proof fn lemma_bits_ext(a: Self, b: Self)
        requires
            forall|i: nat| i < Self::width() ==> a.bit(i) == b.bit(i),
        ensures
            a == b,
    ;

    fn width_exec() -> (r: usize)
        ensures
            r == Self::width(),
    ;

    fn to_u128(self) -> (r: u128)
        ensures
            r == self.as_nat(),
    ;

    fn zero() -> (r: Self)
        ensures
            forall|i: nat| !#[trigger] r.bit(i),
    ;

    fn all_ones() -> (r: Self)
        ensures
            forall|i: nat| #[trigger] r.bit(i) == (i < Self::width()),
    ;

    fn same(self, other: Self) -> (r: bool)
        ensures
            r == (self == other),
    ;

    fn test_bit(self, id: usize) -> (r: bool)
        requires
            id < Self::width(),
        ensures
            r == self.bit(id as nat),
    ;

    fn with_bit(self, id: usize) -> (r: Self)
        requires
            id < Self::width(),
        ensures
            forall|i: nat| #[trigger] r.bit(i) == (i == id || self.bit(i)),
    ;

    fn without_bit(self, id: usize) -> (r: Self)
        requires
            id < Self::width(),
        ensures
            forall|i: nat| #[trigger] r.bit(i) == (i != id && self.bit(i)),
    ;

    fn and_bits(self, other: Self) -> (r: Self)
        ensures
            forall|i: nat| #[trigger] r.bit(i) == (self.bit(i) && other.bit(i)),
    ;

    fn or_bits(self, other: Self) -> (r: Self)
        ensures
            forall|i: nat| #[trigger] r.bit(i) == (self.bit(i) || other.bit(i)),
    ;

    fn not_bits(self) -> (r: Self)
        ensures
            forall|i: nat| #[trigger] r.bit(i) == (i < Self::width() && !self.bit(i)),
    ;

    /// The index of the lowest set bit, or the width when no bit is set.
    fn trailing_zeros(self) -> (r: u32)
        ensures
            r <= Self::width(),
            r < Self::width() ==> self.bit(r as nat),
            r == Self::width() ==> forall|i: nat| !#[trigger] self.bit(i),
            forall|i: nat| i < r ==> !#[trigger] self.bit(i),
    ;
}

pub open spec fn bit64(v: u64, i: nat) -> bool {
    i < 64 && (v >> (i as u64)) & 1u64 == 1u64
}

pub open spec fn bit128(v: u128, i: nat) -> bool {
    i < 128 && (v >> (i as u128)) & 1u128 == 1u128
}

proof fn lemma_tz64(v: u64)
    ensures
        u64_trailing_zeros(v) <= 64,
        u64_trailing_zeros(v) < 64 ==> bit64(v, u64_trailing_zeros(v) as nat),
        u64_trailing_zeros(v) == 64 ==> v == 0,
        forall|i: nat| i < u64_trailing_zeros(v) ==> !#[trigger] bit64(v, i),
{
    axiom_u64_trailing_zeros(v);
    let t = u64_trailing_zeros(v);
    assert forall|i: nat| i < t implies !#[trigger] bit64(v, i) by {
        let j = i as u64;
        assert((v >> j) & 1u64 == 0u64);
    }
}

proof fn lemma_zero64_bits()
    ensures
        forall|i: nat| !#[trigger] bit64(0u64, i),
{
    assert forall|i: nat| !#[trigger] bit64(0u64, i) by {
        if i < 64 {
            let j = i as u64;
            assert((0u64 >> j) & 1u64 == 0u64) by (bit_vector);
        }
    }
}

proof fn lemma_zero128_bits()
    ensures
        forall|i: nat| !#[trigger] bit128(0u128, i),
{
    assert forall|i: nat| !#[trigger] bit128(0u128, i) by {
        if i < 128 {
            let j = i as u128;
            assert((0u128 >> j) & 1u128 == 0u128) by (bit_vector);
        }
    }
}

impl BitboardInt for u64 {
    open spec fn width() -> nat {
        64
    }

    open spec fn bit(self, i: nat) -> bool {
        bit64(self, i)
    }

    open spec fn as_nat(self) -> nat {
        self as nat
    }

    proof fn lemma_bit_as_nat(x: Self, i: nat) {
        if i < 128 {
            let j = i as u128;
            let y = x as u128;
            assert(((y >> j) & 1u128 == 1u128) == (j < 64u128 && ((x >> (j as u64)) & 1u64 == 1u64))) by (bit_vector)
                requires
                    y == x as u128,
                    j < 128u128,
            ;
        }
    }

    proof fn lemma_width() {
    }

    proof fn lemma_bit_in_range(x: Self, i: nat) {
    }

    #[verifier::spinoff_prover]
    proof fn lemma_bits_ext(a: Self, b: Self) {
        if a != b {
            let d = a ^ b;
            assert(d != 0) by (bit_vector)
                requires
                    a != b,
                    d == a ^ b,
            ;
            lemma_tz64(d);
            let t = u64_trailing_zeros(d) as u64;
            assert(t < 64);
            assert(bit64(d, t as nat));
            assert(((a >> t) & 1u64 == 1u64) != ((b >> t) & 1u64 == 1u64)) by (bit_vector)
                requires
                    d == a ^ b,
                    t < 64,
                    (d >> t) & 1u64 == 1u64,
            ;
            assert(a.bit(t as nat) != b.bit(t as nat));
            assert((t as nat) < Self::width());
            assert(false);
        }
    }

    fn width_exec() -> (r: usize) {
        64
    }

    fn to_u128(self) -> (r: u128) {
        self as u128
    }

    fn zero() -> (r: Self) {
        proof {
            lemma_zero64_bits();
        }
        0u64
    }

    fn all_ones() -> (r: Self) {
        let r = !0u64;
        assert forall|i: nat| #[trigger] bit64(r, i) == (i < 64) by {
            if i < 64 {
                let j = i as u64;
                assert(((!0u64) >> j) & 1u64 == 1u64) by (bit_vector)
                    requires
                        j < 64,
                ;
            }
        }
        r
    }

    fn same(self, other: Self) -> (r: bool) {
        self == other
    }

    fn test_bit(self, id: usize) -> (r: bool) {
        (self >> (id as u64)) & 1u64 == 1u64
    }

    fn with_bit(self, id: usize) -> (r: Self) {
        let k = id as u64;
        let r = self | (1u64 << k);
        assert forall|i: nat| #[trigger] bit64(r, i) == (i == id || bit64(self, i)) by {
            if i < 64 {
                let j = i as u64;
                assert(((self | (1u64 << k)) >> j) & 1u64 == 1u64 <==> (j == k || (self >> j)
                    & 1u64 == 1u64)) by (bit_vector)
                    requires
                        j < 64,
                        k < 64,
                ;
            }
        }
        r
    }

    fn without_bit(self, id: usize) -> (r: Self) {
        let k = id as u64;
        let r = self & !(1u64 << k);
        assert forall|i: nat| #[trigger] bit64(r, i) == (i != id && bit64(self, i)) by {
            if i < 64 {
                let j = i as u64;
                assert(((self & !(1u64 << k)) >> j) & 1u64 == 1u64 <==> (j != k && (self >> j)
                    & 1u64 == 1u64)) by (bit_vector)
                    requires
                        j < 64,
                        k < 64,
                ;
            }
        }
        r
    }

    fn and_bits(self, other: Self) -> (r: Self) {
        let r = self & other;
        assert forall|i: nat| #[trigger] bit64(r, i) == (bit64(self, i) && bit64(other, i)) by {
            if i < 64 {
                let j = i as u64;
                assert(((self & other) >> j) & 1u64 == 1u64 <==> ((self >> j) & 1u64 == 1u64
                    && (other >> j) & 1u64 == 1u64)) by (bit_vector)
                    requires
                        j < 64,
                ;
            }
        }
        r
    }

    fn or_bits(self, other: Self) -> (r: Self) {
        let r = self | other;
        assert forall|i: nat| #[trigger] bit64(r, i) == (bit64(self, i) || bit64(other, i)) by {
            if i < 64 {
                let j = i as u64;
                assert(((self | other) >> j) & 1u64 == 1u64 <==> ((self >> j) & 1u64 == 1u64
                    || (other >> j) & 1u64 == 1u64)) by (bit_vector)
                    requires
                        j < 64,
                ;
            }
        }
        r
    }

    fn not_bits(self) -> (r: Self) {
        let r = !self;
        assert forall|i: nat| #[trigger] bit64(r, i) == (i < 64 && !bit64(self, i)) by {
            if i < 64 {
                let j = i as u64;
                assert(((!self) >> j) & 1u64 == 1u64 <==> !((self >> j) & 1u64 == 1u64))
                    by (bit_vector)
                    requires
                        j < 64,
                ;
            }
        }
        r
    }

    fn trailing_zeros(self) -> (r: u32) {
        proof {
            lemma_tz64(self);
            if u64_trailing_zeros(self) == 64 {
                lemma_zero64_bits();
            }
        }
        self.trailing_zeros()
    }
}

/// Relates the bits of a `u128` to those of its two halves.
proof fn lemma_halves(v: u128, i: nat)
    requires
        i < 128,
    ensures
        i < 64 ==> (bit128(v, i) == bit64(v as u64, i)),
        i >= 64 ==> (bit128(v, i) == bit64((v >> 64u128) as u64, (i - 64) as nat)),
{
    let j = i as u128;
    if i < 64 {
        let k = i as u64;
        assert(((v >> j) & 1u128 == 1u128) == (((v as u64) >> k) & 1u64 == 1u64)) by (bit_vector)
            requires
                j < 64,
                k == j,
        ;
    } else {
        let k = (i - 64) as u64;
        assert(((v >> j) & 1u128 == 1u128) == ((((v >> 64u128) as u64) >> k) & 1u64 == 1u64))
            by (bit_vector)
            requires
                64 <= j < 128,
                k == j - 64,
        ;
    }
}

impl BitboardInt for u128 {
    open spec fn width() -> nat {
        128
    }

    open spec fn bit(self, i: nat) -> bool {
        bit128(self, i)
    }

    open spec fn as_nat(self) -> nat {
        self as nat
    }

    proof fn lemma_bit_as_nat(x: Self, i: nat) {
    }

    proof fn lemma_width() {
    }

    proof fn lemma_bit_in_range(x: Self, i: nat) {
    }

    #[verifier::spinoff_prover]
    proof fn lemma_bits_ext(a: Self, b: Self) {
        let lo_a = a as u64;
        let lo_b = b as u64;
        let hi_a = (a >> 64u128) as u64;
        let hi_b = (b >> 64u128) as u64;
        assert forall|i: nat| i < 64 implies bit64(lo_a, i) == bit64(lo_b, i) by {
            assert(a.bit(i) == b.bit(i));
            lemma_halves(a, i);
            lemma_halves(b, i);
        }
        assert forall|i: nat| i < 64 implies bit64(hi_a, i) == bit64(hi_b, i) by {
            assert(a.bit(i + 64) == b.bit(i + 64));
            lemma_halves(a, i + 64);
            lemma_halves(b, i + 64);
        }
        <u64 as BitboardInt>::lemma_bits_ext(lo_a, lo_b);
        <u64 as BitboardInt>::lemma_bits_ext(hi_a, hi_b);
        assert(a == b) by (bit_vector)
            requires
                a as u64 == b as u64,
                (a >> 64u128) as u64 == (b >> 64u128) as u64,
        ;
    }

    fn width_exec() -> (r: usize) {
        128
    }

    fn to_u128(self) -> (r: u128) {
        self
    }

    fn zero() -> (r: Self) {
        proof {
            lemma_zero128_bits();
        }
        0u128
    }

    fn all_ones() -> (r: Self) {
        let r = !0u128;
        assert forall|i: nat| #[trigger] bit128(r, i) == (i < 128) by {
            if i < 128 {
                let j = i as u128;
                assert(((!0u128) >> j) & 1u128 == 1u128) by (bit_vector)
                    requires
                        j < 128,
                ;
            }
        }
        r
    }

    fn same(self, other: Self) -> (r: bool) {
        self == other
    }

    fn test_bit(self, id: usize) -> (r: bool) {
        (self >> (id as u128)) & 1u128 == 1u128
    }

    fn with_bit(self, id: usize) -> (r: Self) {
        let k = id as u128;
        let r = self | (1u128 << k);
        assert forall|i: nat| #[trigger] bit128(r, i) == (i == id || bit128(self, i)) by {
            if i < 128 {
                let j = i as u128;
                assert(((self | (1u128 << k)) >> j) & 1u128 == 1u128 <==> (j == k || (self >> j)
                    & 1u128 == 1u128)) by (bit_vector)
                    requires
                        j < 128,
                        k < 128,
                ;
            }
        }
        r
    }

    fn without_bit(self, id: usize) -> (r: Self) {
        let k = id as u128;
        let r = self & !(1u128 << k);
        assert forall|i: nat| #[trigger] bit128(r, i) == (i != id && bit128(self, i)) by {
            if i < 128 {
                let j = i as u128;
                assert(((self & !(1u128 << k)) >> j) & 1u128 == 1u128 <==> (j != k && (self >> j)
                    & 1u128 == 1u128)) by (bit_vector)
                    requires
                        j < 128,
                        k < 128,
                ;
            }
        }
        r
    }

    fn and_bits(self, other: Self) -> (r: Self) {
        let r = self & other;
        assert forall|i: nat| #[trigger] bit128(r, i) == (bit128(self, i) && bit128(other, i)) by {
            if i < 128 {
                let j = i as u128;
                assert(((self & other) >> j) & 1u128 == 1u128 <==> ((self >> j) & 1u128 == 1u128
                    && (other >> j) & 1u128 == 1u128)) by (bit_vector)
                    requires
                        j < 128,
                ;
            }
        }
        r
    }

    fn or_bits(self, other: Self) -> (r: Self) {
        let r = self | other;
        assert forall|i: nat| #[trigger] bit128(r, i) == (bit128(self, i) || bit128(other, i)) by {
            if i < 128 {
                let j = i as u128;
                assert(((self | other) >> j) & 1u128 == 1u128 <==> ((self >> j) & 1u128 == 1u128
                    || (other >> j) & 1u128 == 1u128)) by (bit_vector)
                    requires
                        j < 128,
                ;
            }
        }
        r
    }

    fn not_bits(self) -> (r: Self) {
        let r = !self;
        assert forall|i: nat| #[trigger] bit128(r, i) == (i < 128 && !bit128(self, i)) by {
            if i < 128 {
                let j = i as u128;
                assert(((!self) >> j) & 1u128 == 1u128 <==> !((self >> j) & 1u128 == 1u128))
                    by (bit_vector)
                    requires
                        j < 128,
                ;
            }
        }
        r
    }

    fn trailing_zeros(self) -> (r: u32) {
        let lo = self as u64;
        let hi = (self >> 64u128) as u64;
        proof {
            lemma_tz64(lo);
            lemma_tz64(hi);
        }
        if lo != 0 {
            let t = lo.trailing_zeros();
            proof {
                lemma_halves(self, t as nat);
                assert forall|i: nat| i < t implies !#[trigger] bit128(self, i) by {
                    lemma_halves(self, i);
                }
            }
            t
        } else {
            let t = hi.trailing_zeros();
            proof {
                lemma_zero64_bits();
                assert forall|i: nat| i < 64 + t implies !#[trigger] bit128(self, i) by {
                    if i < 128 {
                        lemma_halves(self, i);
                    }
                }
                if t < 64 {
                    lemma_halves(self, (64 + t) as nat);
                } else {
                    assert forall|i: nat| !#[trigger] bit128(self, i) by {
                        if i < 128 {
                            lemma_halves(self, i);
                        }
                    }
                }
            }
            64 + t
        }
    }
}


/// The bits of `x` below `n`, as a set of indices.
pub open spec fn bits_below<T: BitboardInt>(x: T, n: nat) -> Set<nat> {
    Set::new(|i: nat| i < n && x.bit(i))
}

pub proof fn lemma_bits_below_finite<T: BitboardInt>(x: T, n: nat)
    ensures
        bits_below(x, n).finite(),
    decreases n,
{
    if n == 0 {
        assert(bits_below(x, 0) =~= Set::<nat>::empty());
    } else {
        let m = (n - 1) as nat;
        lemma_bits_below_finite(x, m);
        if x.bit(m) {
            assert(bits_below(x, n) =~= bits_below(x, m).insert(m));
        } else {
            assert(bits_below(x, n) =~= bits_below(x, m));
        }
    }
}

/// The value of a hexadecimal digit, if `c` is one.
pub open spec fn hex_digit(c: char) -> Option<u32> {
    if '0' <= c && c <= '9' {
        Some((c as u32 - '0' as u32) as u32)
    } else if 'a' <= c && c <= 'f' {
        Some((c as u32 - 'a' as u32 + 10) as u32)
    } else if 'A' <= c && c <= 'F' {
        Some((c as u32 - 'A' as u32 + 10) as u32)
    } else {
        None
    }
}

/// The digits of a hexadecimal numeral, which may start with a `+` sign.
pub open spec fn hex_digits(s: Seq<char>) -> Seq<char> {
    if s.len() > 0 && s[0] == '+' {
        s.drop_first()
    } else {
        s
    }
}

/// `s` is an optional `+` followed by one or more hexadecimal digits.
pub open spec fn is_hex(s: Seq<char>) -> bool {
    &&& hex_digits(s).len() > 0
    &&& forall|k: int| 0 <= k < hex_digits(s).len() ==> #[trigger] hex_digit(hex_digits(s)[k]) is Some
}

/// Bit `i` of the number that the hexadecimal numeral `s` denotes.
pub open spec fn hex_bit(s: Seq<char>, i: nat) -> bool {
    let d = hex_digits(s);
    let p = i / 4;
    p < d.len() && (hex_digit(d[d.len() - 1 - p]).unwrap() >> ((i % 4) as u32)) & 1u32 == 1u32
}

/// The elements of `s` below `n`, in increasing order.
pub open spec fn ascending(s: Set<nat>, n: nat) -> Seq<nat>
    decreases n,
{
    if n == 0 {
        Seq::empty()
    } else {
        let prev = ascending(s, (n - 1) as nat);
        if s.contains((n - 1) as nat) {
            prev.push((n - 1) as nat)
        } else {
            prev
        }
    }
}

/// A strictly increasing sequence of exactly the elements of `s` below `n`
/// is `ascending(s, n)`.
pub proof fn lemma_ascending_unique(q: Seq<nat>, s: Set<nat>, n: nat)
    requires
        forall|i: int| 0 <= i < q.len() ==> s.contains(q[i]) && q[i] < n,
        forall|k: nat| s.contains(k) && k < n ==> exists|i: int| 0 <= i < q.len() && q[i] == k,
        forall|i: int, j: int| 0 <= i < j < q.len() ==> q[i] < q[j],
    ensures
        q == ascending(s, n),
    decreases n,
{
    if n == 0 {
        if q.len() > 0 {
            assert(q[0] < 0);
        }
        assert(q =~= Seq::<nat>::empty());
    } else {
        let m = (n - 1) as nat;
        if s.contains(m) {
            let i = choose|i: int| 0 <= i < q.len() && q[i] == m;
            let last = q.len() - 1;
            if i < last {
                assert(q[i] < q[last]);
            }
            let p = q.drop_last();
            assert forall|k: nat| s.contains(k) && k < m implies exists|j: int| 0 <= j < p.len() && p[j] == k by {
                let j = choose|j: int| 0 <= j < q.len() && q[j] == k;
                assert(p[j] == k);
            }
            assert forall|j: int| 0 <= j < p.len() implies s.contains(p[j]) && p[j] < m by {
                assert(q[j] < q[last]);
            }
            lemma_ascending_unique(p, s, m);
            assert(q =~= p.push(m));
        } else {
            assert forall|j: int| 0 <= j < q.len() implies s.contains(q[j]) && q[j] < m by {
                assert(q[j] != m);
            }
            lemma_ascending_unique(q, s, m);
        }
    }
}

/// A set of indices below the width of `T`, stored as the set bits of a `T`.
#[derive(Clone, Copy, PartialEq, Eq, PartialOrd, Ord, Debug)]
pub struct Bitboard<T: BitboardInt> {
    pub value: T,
}

impl<T: BitboardInt> View for Bitboard<T> {
    type V = Set<nat>;

    open spec fn view(&self) -> Set<nat> {
        bits_below(self.value, T::width())
    }
}

impl<T: BitboardInt> Default for Bitboard<T> {
    fn default() -> (r: Self)
        ensures
            r@ == Set::<nat>::empty(),
    {
        Bitboard::zeros()
    }
}

impl<T: BitboardInt> Bitboard<T> {
    /// The word in hexadecimal, as `Bitboard <digits>`.
    pub fn render(&self) -> (r: String)
        ensures
            r@ == "Bitboard "@ + numeral(self.value.as_nat(), 16),
    {
        let mut out: Vec<char> = Vec::new();
        push_str(&mut out, "Bitboard ");
        push_numeral(&mut out, self.value.to_u128(), 16);
        assert(Seq::<char>::empty() + "Bitboard "@ =~= "Bitboard "@);
        chars_to_string(&out)
    }

    /// Every index that a bitboard of this width can hold.
    pub open spec fn full() -> Set<nat> {
        Set::new(|i: nat| i < T::width())
    }

    pub proof fn lemma_view_finite(self)
        ensures
            self@.finite(),
            self@.subset_of(Self::full()),
    {
        lemma_bits_below_finite(self.value, T::width());
    }

    /// Bitboards with the same elements are equal.
    pub proof fn lemma_view_injective(a: Self, b: Self)
        requires
            a@ == b@,
        ensures
            a == b,
    {
        assert forall|i: nat| i < T::width() implies a.value.bit(i) == b.value.bit(i) by {
            assert(a@.contains(i) == (i < T::width() && a.value.bit(i)));
            assert(b@.contains(i) == (i < T::width() && b.value.bit(i)));
            assert(a@.contains(i) == b@.contains(i));
        }
        T::lemma_bits_ext(a.value, b.value);
    }

    pub fn new(value: T) -> (r: Self)
        ensures
            r.value == value,
    {
        Bitboard { value }
    }

    pub fn zeros() -> (r: Self)
        ensures
            r@ == Set::<nat>::empty(),
    {
        let r = Bitboard { value: T::zero() };
        assert(r@ =~= Set::<nat>::empty());
        r
    }

    pub fn is_zeros(&self) -> (r: bool)
        ensures
            r == (self@ == Set::<nat>::empty()),
    {
        let t = self.value.trailing_zeros();
        let r = t as usize == T::width_exec();
        if r {
            assert(self@ =~= Set::<nat>::empty());
        } else {
            assert(self@.contains(t as nat));
        }
        r
    }

    pub fn ones() -> (r: Self)
        ensures
            r@ == Self::full(),
    {
        let r = Bitboard { value: T::all_ones() };
        assert(r@ =~= Self::full());
        r
    }

    pub fn single(id: usize) -> (r: Self)
        requires
            id < T::width(),
        ensures
            r@ == Set::<nat>::empty().insert(id as nat),
    {
        let mut board = Self::zeros();
        board.add(id);
        board
    }

    pub fn contains(&self, id: usize) -> (r: bool)
        requires
            id < T::width(),
        ensures
            r == self@.contains(id as nat),
    {
        self.value.test_bit(id)
    }

    pub fn add(&mut self, id: usize)
        requires
            id < T::width(),
        ensures
            final(self)@ == old(self)@.insert(id as nat),
    {
        self.value = self.value.with_bit(id);
        assert(self@ =~= old(self)@.insert(id as nat));
    }

    pub fn remove(&mut self, id: usize)
        requires
            id < T::width(),
        ensures
            final(self)@ == old(self)@.remove(id as nat),
    {
        self.value = self.value.without_bit(id);
        assert(self@ =~= old(self)@.remove(id as nat));
    }

    /// The smallest element, if there is one.
    fn lowest(&self) -> (r: Option<usize>)
        ensures
            r is None <==> self@ == Set::<nat>::empty(),
            r matches Some(i) ==> self@.contains(i as nat) && forall|j: nat|
                #![trigger self@.contains(j)]
                j < i ==> !self@.contains(j),
    {
        let t = self.value.trailing_zeros();
        if t as usize == T::width_exec() {
            assert(self@ =~= Set::<nat>::empty());
            None
        } else {
            assert(self@.contains(t as nat));
            Some(t as usize)
        }
    }

    pub fn count_ones(&self) -> (r: u32)
        ensures
            r == self@.len(),
    {
        let mut rest = *self;
        let mut count: u32 = 0;
        proof {
            rest.lemma_view_finite();
            self.lemma_view_finite();
            T::lemma_width();
            lemma_full_len::<T>();
            vstd::set_lib::lemma_len_subset(self@, Self::full());
        }
        loop
            invariant
                rest@.finite(),
                self@.finite(),
                self@.len() <= T::width() <= 128,
                rest@.subset_of(self@),
                count + rest@.len() == self@.len(),
            decreases rest@.len(),
        {
            match rest.lowest() {
                None => {
                    return count;
                },
                Some(i) => {
                    rest.remove(i);
                    count = count + 1;
                },
            }
        }
    }

    /// The elements in increasing order.
    pub fn values(&self) -> (r: Vec<usize>)
        ensures
            forall|i: int| 0 <= i < r.len() ==> self@.contains(#[trigger] r[i] as nat),
            forall|k: nat| self@.contains(k) ==> exists|i: int| 0 <= i < r.len() && #[trigger] r[i] == k,
            forall|i: int, j: int| 0 <= i < j < r.len() ==> r[i] < r[j],
            r@.map_values(|x: usize| x as nat) == ascending(self@, T::width()),
    {
        let mut rest = *self;
        let mut result: Vec<usize> = Vec::new();
        proof {
            rest.lemma_view_finite();
        }
        loop
            invariant
                rest@.finite(),
                rest@.subset_of(self@),
                forall|i: int| 0 <= i < result.len() ==> self@.contains(#[trigger] result[i] as nat),
                forall|i: int| 0 <= i < result.len() ==> !rest@.contains(#[trigger] result[i] as nat),
                forall|i: int, k: nat| 0 <= i < result.len() && #[trigger] rest@.contains(k) ==> #[trigger] result[i] < k,
                forall|k: nat| self@.contains(k) ==> rest@.contains(k) || exists|i: int| 0 <= i < result.len() && #[trigger] result[i] == k,
                forall|i: int, j: int| 0 <= i < j < result.len() ==> result[i] < result[j],
            decreases rest@.len(),
        {
            match rest.lowest() {
                None => {
                    proof {
                        self.lemma_view_finite();
                        let q = result@.map_values(|x: usize| x as nat);
                        assert forall|k: nat| self@.contains(k) && k < T::width() implies exists|i: int| 0 <= i < q.len() && q[i] == k by {
                            let i = choose|i: int| 0 <= i < result.len() && #[trigger] result[i] == k;
                            assert(q[i] == k);
                        }
                        assert forall|i: int| 0 <= i < q.len() implies self@.contains(q[i]) && q[i] < T::width() by {
                            assert(self@.contains(result[i] as nat));
                        }
                        lemma_ascending_unique(q, self@, T::width());
                    }
                    return result;
                },
                Some(i) => {
                    let ghost before = rest@;
                    let ghost old_result = result@;
                    rest.remove(i);
                    result.push(i);
                    proof {
                        assert forall|k: nat| rest@.contains(k) implies i < k by {
                            assert(before.contains(k));
                            assert(k != i);
                            if k < i {
                                assert(!before.contains(k));
                            }
                        }
                        assert forall|k: nat| self@.contains(k) implies rest@.contains(k) || exists|j: int| 0 <= j < result.len() && #[trigger] result[j] == k by {
                            if !rest@.contains(k) {
                                if k == i {
                                    assert(result[result.len() - 1] == k);
                                } else if !before.contains(k) {
                                    let j = choose|j: int| 0 <= j < old_result.len() && #[trigger] old_result[j] == k;
                                    assert(result[j] == k);
                                }
                            }
                        }
                    }
                },
            }
        }
    }

    /// Removes and returns the smallest element.
    pub fn next(&mut self) -> (r: Option<usize>)
        ensures
            r is None ==> old(self)@ == Set::<nat>::empty() && final(self)@ == old(self)@,
            r matches Some(i) ==> {
                &&& old(self)@.contains(i as nat)
                &&& forall|j: nat| #![trigger old(self)@.contains(j)] j < i ==> !old(self)@.contains(j)
                &&& final(self)@ == old(self)@.remove(i as nat)
            },
    {
        match self.lowest() {
            None => None,
            Some(i) => {
                self.remove(i);
                Some(i)
            },
        }
    }

    pub fn and(self, rhs: Self) -> (r: Self)
        ensures
            r@ == self@.intersect(rhs@),
    {
        let r = Bitboard { value: self.value.and_bits(rhs.value) };
        assert(r@ =~= self@.intersect(rhs@));
        r
    }

    pub fn or(self, rhs: Self) -> (r: Self)
        ensures
            r@ == self@.union(rhs@),
    {
        let r = Bitboard { value: self.value.or_bits(rhs.value) };
        assert(r@ =~= self@.union(rhs@));
        r
    }

    pub fn not(self) -> (r: Self)
        ensures
            r@ == Self::full().difference(self@),
    {
        let r = Bitboard { value: self.value.not_bits() };
        assert(r@ =~= Self::full().difference(self@));
        r
    }

    pub fn and_assign(&mut self, rhs: Self)
        ensures
            final(self)@ == old(self)@.intersect(rhs@),
    {
        *self = self.and(rhs);
    }

    pub fn or_assign(&mut self, rhs: Self)
        ensures
            final(self)@ == old(self)@.union(rhs@),
    {
        *self = self.or(rhs);
    }

    /// Whether the two bitboards hold the same elements.
    pub fn equals(&self, other: &Self) -> (r: bool)
        ensures
            r == (self@ == other@),
    {
        let r = self.value.same(other.value);
        proof {
            if !r && self@ == other@ {
                Self::lemma_view_injective(*self, *other);
            }
        }
        r
    }

    /// Parses a hexadecimal numeral into the bitboard whose value it denotes.
    pub fn from_hex(hex: &str) -> (r: Self)
        requires
            is_hex(hex@),
            forall|i: nat| i >= T::width() ==> !#[trigger] hex_bit(hex@, i),
        ensures
            forall|i: nat| r@.contains(i) <==> #[trigger] hex_bit(hex@, i),
    {
        let n = hex.unicode_len();
        let start: usize = if n > 0 && hex.get_char(0) == '+' { 1 } else { 0 };
        let ghost d = hex_digits(hex@);
        assert(d =~= hex@.subrange(start as int, n as int));
        let ghost width = T::width();
        proof {
            T::lemma_width();
        }
        let mut value = T::zero();
        let mut p: usize = 0;
        while p < n - start
            invariant
                d == hex_digits(hex@),
                d.len() == n - start,
                d =~= hex@.subrange(start as int, n as int),
                start <= n,
                n == hex@.len(),
                width == T::width(),
                width <= 128,
                is_hex(hex@),
                forall|i: nat| i >= width ==> !#[trigger] hex_bit(hex@, i),
                p <= n - start,
                forall|i: nat| i < 4 * p ==> (#[trigger] value.bit(i) == hex_bit(hex@, i)),
                forall|i: nat| i >= 4 * p ==> !#[trigger] value.bit(i),
            decreases n - start - p,
        {
            let c = hex.get_char(n - 1 - p);
            let ghost k = d.len() - 1 - p;
            assert(c == d[k]);
            assert(0 <= k < hex_digits(hex@).len());
            assert(hex_digit(hex_digits(hex@)[k]) is Some);
            let digit = hex_digit_exec(c);
            let mut b: u32 = 0;
            while b < 4
                invariant
                    b <= 4,
                    p < n - start,
                    d.len() == n - start,
                    d == hex_digits(hex@),
                    digit == hex_digit(d[d.len() - 1 - p]).unwrap(),
                    width == T::width(),
                    width <= 128,
                    forall|i: nat| i >= width ==> !#[trigger] hex_bit(hex@, i),
                    forall|i: nat| i < 4 * p ==> (#[trigger] value.bit(i) == hex_bit(hex@, i)),
                    forall|i: nat| 4 * p <= i < 4 * p + b ==> (#[trigger] value.bit(i) == hex_bit(hex@, i)),
                    forall|i: nat| i >= 4 * p + b ==> !#[trigger] value.bit(i),
                decreases 4 - b,
            {
                let ghost i = (4 * p + b) as nat;
                assert(i / 4 == p && i % 4 == b) by (nonlinear_arith)
                    requires
                        i == 4 * p + b,
                        b < 4,
                ;
                if (digit >> b) & 1u32 == 1u32 {
                    assert(hex_bit(hex@, i));
                    let id = 4 * p + b as usize;
                    value = value.with_bit(id);
                } else {
                    assert(!hex_bit(hex@, i));
                }
                b = b + 1;
            }
            p = p + 1;
        }
        let r = Bitboard { value };
        assert forall|i: nat| r@.contains(i) <==> #[trigger] hex_bit(hex@, i) by {
            if i >= 4 * p {
                let q = i / 4;
                assert(q >= p) by (nonlinear_arith)
                    requires
                        i >= 4 * p,
                        q == i / 4,
                ;
            }
        }
        r
    }
}

pub proof fn lemma_full_len<T: BitboardInt>()
    ensures
        Bitboard::<T>::full().finite(),
        Bitboard::<T>::full().len() == T::width(),
{
    lemma_nat_range(T::width());
    assert(Bitboard::<T>::full() =~= nat_range(T::width()));
}

/// The naturals below `n`.
pub open spec fn nat_range(n: nat) -> Set<nat> {
    Set::new(|i: nat| i < n)
}

pub proof fn lemma_nat_range(n: nat)
    ensures
        nat_range(n).finite(),
        nat_range(n).len() == n,
    decreases n,
{
    if n == 0 {
        assert(nat_range(0) =~= Set::<nat>::empty());
    } else {
        let m = (n - 1) as nat;
        lemma_nat_range(m);
        assert(nat_range(n) =~= nat_range(m).insert(m));
    }
}

fn hex_digit_exec(c: char) -> (r: u32)
    requires
        hex_digit(c) is Some,
    ensures
        r == hex_digit(c).unwrap(),
{
    if '0' <= c && c <= '9' {
        (c as u32) - ('0' as u32)
    } else if 'a' <= c && c <= 'f' {
        (c as u32) - ('a' as u32) + 10
    } else {
        (c as u32) - ('A' as u32) + 10
    }
}

/// Reading a digit back gives its value.
proof fn lemma_digit_char_value(d: nat)
    requires
        d < 16,
    ensures
        hex_digit(digit_char(d)) == Some(d as u32),
        digit_char(d) != '+',
{
    if d == 0 {
        assert(digit_char(0) == '0');
    } else if d == 1 {
        assert(digit_char(1) == '1');
    } else if d == 2 {
        assert(digit_char(2) == '2');
    } else if d == 3 {
        assert(digit_char(3) == '3');
    } else if d == 4 {
        assert(digit_char(4) == '4');
    } else if d == 5 {
        assert(digit_char(5) == '5');
    } else if d == 6 {
        assert(digit_char(6) == '6');
    } else if d == 7 {
        assert(digit_char(7) == '7');
    } else if d == 8 {
        assert(digit_char(8) == '8');
    } else if d == 9 {
        assert(digit_char(9) == '9');
    } else if d == 10 {
        assert(digit_char(10) == 'a');
    } else if d == 11 {
        assert(digit_char(11) == 'b');
    } else if d == 12 {
        assert(digit_char(12) == 'c');
    } else if d == 13 {
        assert(digit_char(13) == 'd');
    } else if d == 14 {
        assert(digit_char(14) == 'e');
    } else {
        assert(digit_char(15) == 'f');
    }
}

proof fn lemma_hex_bits(v: u128, i: nat)
    ensures
        numeral(v as nat, 16).len() >= 1,
        numeral(v as nat, 16)[0] != '+',
        forall|k: int| 0 <= k < numeral(v as nat, 16).len() ==> #[trigger] hex_digit(numeral(v as nat, 16)[k]) is Some,
        hex_bit(numeral(v as nat, 16), i) == bit128(v, i),
    decreases v,
{
    let d = numeral(v as nat, 16);
    if v < 16 {
        assert(d == seq![digit_char(v as nat)]);
        lemma_digit_char_value(v as nat);
        assert(hex_digits(d) == d);
        if i < 4 {
            let j = i as u32;
            let jj = i as u128;
            assert(((v as u32) >> j) & 1u32 == 1u32 <==> (v >> jj) & 1u128 == 1u128) by (bit_vector)
                requires
                    v < 16u128,
                    j < 4u32,
                    jj == j as u128,
            ;
        } else if i < 128 {
            let jj = i as u128;
            assert((v >> jj) & 1u128 == 0u128) by (bit_vector)
                requires
                    v < 16u128,
                    4u128 <= jj < 128u128,
            ;
        }
    } else {
        let w = v / 16;
        let r = v % 16;
        assert(d == numeral(w as nat, 16).push(digit_char(r as nat)));
        lemma_digit_char_value(r as nat);
        if i >= 4 {
            lemma_hex_bits(w, (i - 4) as nat);
        } else {
            lemma_hex_bits(w, 0);
        }
        let dw = numeral(w as nat, 16);
        assert(d[0] == dw[0]);
        assert forall|k: int| 0 <= k < d.len() implies #[trigger] hex_digit(d[k]) is Some by {
            if k < dw.len() {
                assert(d[k] == dw[k]);
            }
        }
        assert(hex_digits(d) == d);
        assert(hex_digits(dw) == dw);
        if i < 4 {
            let j = i as u32;
            let jj = i as u128;
            assert(((r as u32) >> j) & 1u32 == 1u32 <==> (v >> jj) & 1u128 == 1u128) by (bit_vector)
                requires
                    r == v % 16u128,
                    j < 4u32,
                    jj == j as u128,
            ;
        } else {
            let p = i / 4;
            if p < d.len() {
                assert(d[d.len() - 1 - p] == dw[dw.len() - 1 - (p - 1)]);
            }
            assert((i - 4) as nat / 4 == p - 1);
            assert((i - 4) as nat % 4 == i % 4);
            if i < 128 {
                let jj = i as u128;
                let kk = (i - 4) as u128;
                assert((v >> jj) & 1u128 == 1u128 <==> (w >> kk) & 1u128 == 1u128) by (bit_vector)
                    requires
                        w == v / 16u128,
                        4u128 <= jj < 128u128,
                        kk == jj - 4u128,
                ;
            } else if i < 132 {
                let jj = (i - 4) as u128;
                assert((w >> jj) & 1u128 == 0u128) by (bit_vector)
                    requires
                        w == v / 16u128,
                        124u128 <= jj < 128u128,
                ;
            }
        }
    }
}

/// The hexadecimal digits of a word are a numeral whose bits are the word's
/// bits.
pub proof fn lemma_hex_round_trip(v: u128)
    ensures
        is_hex(numeral(v as nat, 16)),
        forall|i: nat| #[trigger] hex_bit(numeral(v as nat, 16), i) == bit128(v, i),
{
    lemma_hex_bits(v, 0);
    assert forall|i: nat| #[trigger] hex_bit(numeral(v as nat, 16), i) == bit128(v, i) by {
        lemma_hex_bits(v, i);
    }
}

/// What `render` writes after `Bitboard ` reads back as the same bitboard:
/// the digits are a numeral that [`Bitboard::from_hex`] accepts, with no bit
/// beyond the width of the word, and its bits are the elements of the board.
pub proof fn lemma_render_reads_back<T: BitboardInt>(b: Bitboard<T>)
    ensures
        is_hex(numeral(b.value.as_nat(), 16)),
        forall|i: nat| i >= T::width() ==> !#[trigger] hex_bit(numeral(b.value.as_nat(), 16), i),
        forall|i: nat| #[trigger] hex_bit(numeral(b.value.as_nat(), 16), i) <==> b@.contains(i),
{
    T::lemma_bit_as_nat(b.value, 0);
    let v = b.value.as_nat() as u128;
    assert(v as nat == b.value.as_nat());
    lemma_hex_round_trip(v);
    assert forall|i: nat| #[trigger] hex_bit(numeral(b.value.as_nat(), 16), i) <==> b@.contains(i) by {
        T::lemma_bit_as_nat(b.value, i);
        T::lemma_bit_in_range(b.value, i);
    }
    assert forall|i: nat| i >= T::width() implies !#[trigger] hex_bit(numeral(b.value.as_nat(), 16), i) by {
        T::lemma_bit_as_nat(b.value, i);
        T::lemma_bit_in_range(b.value, i);
    }
}

} // verus!
