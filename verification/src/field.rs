use vstd::prelude::*;
use vstd::arithmetic::div_mod::*;
use vstd::arithmetic::mul::*;
use vstd::arithmetic::power::*;
use vstd::arithmetic::power2::*;
use crate::errors::FieldError;
use crate::errors::DeserializationError;

verus! {

/// The fixed field modulus: the prime `1 + 407 * 2^119`.
pub const FIELD_PRIME: u128 = 270497897142230380135924736767050121217;

/// The fixed element of multiplicative order `2^119`; every power-of-two
/// subgroup generator is obtained from it by repeated squaring.
pub const ROOT_OF_UNITY: u128 = 85408008396924667383611388730472331217;

/// The order of `ROOT_OF_UNITY`, as an exponent of two.
pub const ROOT_ORDER_LOG2: u128 = 119;

/// `pow(b, e)` reduced into the field.
pub open spec fn powm(b: int, e: nat) -> int {
    pow(b, e) % (FIELD_PRIME as int)
}

/// The multiplicative inverse as the field computes it: the Fermat power
/// `b^(p-2) mod p`.
pub open spec fn inverse_spec(b: int) -> int {
    powm(b, (FIELD_PRIME - 2) as nat)
}

/// The residues a vector of field elements stores, in order.
pub open spec fn views(s: Seq<FieldElement>) -> Seq<int> {
    Seq::new(s.len(), |i: int| s[i]@)
}

/// Byte `i` of the 16-byte little-endian serialization of a residue.
pub open spec fn le_byte(v: int, i: int) -> u8 {
    ((v / (pow2((8 * i) as nat) as int)) % 256) as u8
}

/// The 16-byte little-endian serialization of a residue.
pub open spec fn le_bytes(v: int) -> Seq<u8> {
    Seq::new(16, |i: int| le_byte(v, i))
}

/// The serialization of a list of residues, element after element, 16 bytes
/// each.
pub open spec fn ser_elements(s: Seq<int>) -> Seq<u8>
    decreases s.len(),
{
    if s.len() == 0 {
        Seq::empty()
    } else {
        ser_elements(s.drop_last()) + le_bytes(s.last())
    }
}

/// The value a little-endian byte string denotes.
pub open spec fn le_val(b: Seq<u8>) -> int
    decreases b.len(),
{
    if b.len() == 0 {
        0
    } else {
        b[0] + 256 * le_val(b.subrange(1, b.len() as int))
    }
}

/// The 16-byte chunk at element position `e` of a serialized list.
pub open spec fn chunk(b: Seq<u8>, e: int) -> Seq<u8> {
    b.subrange(16 * e, 16 * e + 16)
}

/// Whether the Fermat power `x^(p-2)` multiplies `x` back to one — the
/// condition under which the field's division exactly cancels. By Fermat's
/// little theorem this holds of every nonzero residue; that theorem is
/// beyond this development, so contracts state the condition itself and owe
/// success exactly where it holds.
pub open spec fn invertible(x: int) -> bool {
    (x * inverse_spec(x)) % (FIELD_PRIME as int) == 1
}

/// Big-endian accumulation of a byte string into the field: each byte shifts
/// the accumulator by eight bits and is added in, modulo the prime.
pub open spec fn sample_spec(bytes: Seq<u8>) -> int
    decreases bytes.len(),
{
    if bytes.len() == 0 {
        0
    } else {
        (sample_spec(bytes.drop_last()) * 256 + bytes.last()) % (FIELD_PRIME as int)
    }
}

/// Reduced sum of two reduced residues.
pub fn add_mod(a: u128, b: u128) -> (r: u128)
    requires
        a < FIELD_PRIME,
        b < FIELD_PRIME,
    ensures
        r == (a + b) % (FIELD_PRIME as int),
{
    let diff = FIELD_PRIME - a;
    if b >= diff {
        proof {
            lemma_mod_sub_multiples_vanish(a + b, FIELD_PRIME as int);
            lemma_small_mod((a + b - FIELD_PRIME) as nat, FIELD_PRIME as nat);
        }
        b - diff
    } else {
        proof {
            lemma_small_mod((a + b) as nat, FIELD_PRIME as nat);
        }
        a + b
    }
}

/// Reduced difference of two reduced residues.
pub fn sub_mod(a: u128, b: u128) -> (r: u128)
    requires
        a < FIELD_PRIME,
        b < FIELD_PRIME,
    ensures
        r == (a - b) % (FIELD_PRIME as int),
{
    if a >= b {
        proof {
            lemma_small_mod((a - b) as nat, FIELD_PRIME as nat);
        }
        a - b
    } else {
        proof {
            lemma_mod_add_multiples_vanish(a - b, FIELD_PRIME as int);
            lemma_small_mod((a + FIELD_PRIME - b) as nat, FIELD_PRIME as nat);
        }
        a + (FIELD_PRIME - b)
    }
}

/// Reduced product of two reduced residues, by binary double-and-add so that
/// no intermediate value outgrows the machine word.
pub fn mul_mod(a: u128, b: u128) -> (r: u128)
    requires
        a < FIELD_PRIME,
        b < FIELD_PRIME,
    ensures
        r == (a as int * b as int) % (FIELD_PRIME as int),
{
    let mut result: u128 = 0;
    let mut base: u128 = a;
    let mut e: u128 = b;
    proof {
        lemma_small_mod(0nat, FIELD_PRIME as nat);
    }
    while e > 0
        invariant
            result < FIELD_PRIME,
            base < FIELD_PRIME,
            (result as int + base as int * e as int) % (FIELD_PRIME as int) == (a as int * b as int)
                % (FIELD_PRIME as int),
        decreases e,
    {
        let ghost p = FIELD_PRIME as int;
        let ghost r0 = result as int;
        let ghost b0 = base as int;
        let ghost e0 = e as int;
        if e % 2 == 1 {
            result = add_mod(result, base);
        } else {
            proof {
                lemma_small_mod(r0 as nat, FIELD_PRIME as nat);
            }
        }
        base = add_mod(base, base);
        e = e / 2;
        proof {
            lemma_fundamental_div_mod(e0, 2);
            assert(b0 * (e0 % 2) == if e0 % 2 == 1 { b0 } else { 0 }) by (nonlinear_arith)
                requires
                    0 <= e0 % 2 < 2,
            ;
            assert(result as int == (r0 + b0 * (e0 % 2)) % p);
            assert(r0 + b0 * e0 == (r0 + b0 * (e0 % 2)) + (2 * b0) * (e0 / 2))
                by (nonlinear_arith)
                requires
                    e0 == 2 * (e0 / 2) + e0 % 2,
            ;
            let x = r0 + b0 * (e0 % 2);
            let y = 2 * b0;
            let k = e0 / 2;
            lemma_add_mod_noop_right(x % p, (y % p) * k, p);
            lemma_mul_mod_noop_left(y, k, p);
            lemma_add_mod_noop(x, y * k, p);
            assert((x % p + (y % p) * k) % p == (x + y * k) % p);
        }
    }
    result
}

/// Reduced power of a reduced residue, by binary square-and-multiply over the
/// bits of the exponent; the exponent zero yields the multiplicative identity.
pub fn pow_mod(base: u128, exp: u128) -> (r: u128)
    requires
        base < FIELD_PRIME,
    ensures
        r == powm(base as int, exp as nat),
{
    let mut result: u128 = 1;
    let mut b: u128 = base;
    let mut e: u128 = exp;
    proof {
        lemma_pow1(base as int);
    }
    while e > 0
        invariant
            result < FIELD_PRIME,
            b < FIELD_PRIME,
            (result as int * pow(b as int, e as nat)) % (FIELD_PRIME as int) == pow(
                base as int,
                exp as nat,
            ) % (FIELD_PRIME as int),
        decreases e,
    {
        let ghost p = FIELD_PRIME as int;
        let ghost r0 = result as int;
        let ghost b0 = b as int;
        let ghost e0 = e as nat;
        if e % 2 == 1 {
            result = mul_mod(result, b);
        } else {
            proof {
                lemma_small_mod(r0 as nat, FIELD_PRIME as nat);
                lemma_pow0(b0);
            }
        }
        b = mul_mod(b, b);
        e = e / 2;
        proof {
            lemma_fundamental_div_mod(e0 as int, 2);
            let bit = (e0 % 2) as nat;
            let k = (e0 / 2) as nat;
            // result == (r0 * pow(b0, bit)) % p in both branches
            lemma_pow1(b0);
            assert(result as int == (r0 * pow(b0, bit)) % p);
            // pow(b0, e0) == pow(b0, bit) * pow(b0 * b0, k)
            lemma_pow_adds(b0, bit, (2 * k) as nat);
            lemma_pow_multiplies(b0, 2, k);
            lemma_pow1(b0);
            lemma_pow_adds(b0, 1, 1);
            assert(pow(b0, 2) == b0 * b0);
            assert(pow(b0, e0) == pow(b0, bit) * pow(b0 * b0, k));
            // push the reductions outward
            lemma_pow_mod_noop(b0 * b0, k, p);
            lemma_mul_mod_noop_left(r0 * pow(b0, bit), pow((b0 * b0) % p, k), p);
            lemma_mul_mod_noop_right(r0 * pow(b0, bit), pow((b0 * b0) % p, k), p);
            lemma_mul_mod_noop_right(r0 * pow(b0, bit), pow(b0 * b0, k), p);
            assert((result as int * pow(b as int, k)) % p == ((r0 * pow(b0, bit)) * pow(
                b0 * b0,
                k,
            )) % p);
            lemma_mul_is_associative(r0, pow(b0, bit), pow(b0 * b0, k));
            assert((r0 * pow(b0, bit)) * pow(b0 * b0, k) == r0 * pow(b0, e0));
        }
    }
    proof {
        lemma_pow0(b as int);
        lemma_small_mod(result as nat, FIELD_PRIME as nat);
    }
    result
}

/// A canonical residue of the fixed prime field: the stored value is always
/// already reduced, so no two representations of one residue coexist.
#[derive(Clone, Copy, Debug, PartialEq, Eq, Structural)]
pub struct FieldElement {
    value: u128,
}

impl View for FieldElement {
    type V = int;

    closed spec fn view(&self) -> int {
        self.value as int
    }
}

impl FieldElement {
    /// Well-formedness: the stored residue is canonical. Every exec-mode
    /// element satisfies it; `lemma_wf_bounds` turns it into a bound.
    #[verifier::type_invariant]
    pub closed spec fn wf(self) -> bool {
        self.value < FIELD_PRIME
    }

    /// A well-formed element is a canonical residue.
    pub proof fn lemma_wf_bounds(self)
        requires
            self.wf(),
        ensures
            0 <= self@ < FIELD_PRIME as int,
    {
    }

    /// Builds the element of the given residue, reducing it into the field.
    pub fn new(value: u128) -> (r: Self)
        ensures
            r@ == value as int % (FIELD_PRIME as int),
    {
        proof {
            lemma_mod_division_less_than_divisor(value as int, FIELD_PRIME as int);
        }
        FieldElement { value: value % FIELD_PRIME }
    }

    /// The canonical residue this element stores.
    pub fn value(&self) -> (r: u128)
        ensures
            r as int == self@,
    {
        self.value
    }

    /// The additive identity.
    pub fn zero() -> (r: Self)
        ensures
            r@ == 0,
    {
        FieldElement { value: 0 }
    }

    /// The multiplicative identity.
    pub fn one() -> (r: Self)
        ensures
            r@ == 1,
    {
        FieldElement { value: 1 }
    }

    pub fn is_zero(&self) -> (r: bool)
        ensures
            r == (self@ == 0),
    {
        self.value == 0
    }

    pub fn add(self, rhs: Self) -> (r: Self)
        ensures
            r@ == (self@ + rhs@) % (FIELD_PRIME as int),
    {
        proof {
            use_type_invariant(self);
            use_type_invariant(rhs);
        }
        FieldElement { value: add_mod(self.value, rhs.value) }
    }

    pub fn sub(self, rhs: Self) -> (r: Self)
        ensures
            r@ == (self@ - rhs@) % (FIELD_PRIME as int),
    {
        proof {
            use_type_invariant(self);
            use_type_invariant(rhs);
        }
        FieldElement { value: sub_mod(self.value, rhs.value) }
    }

    pub fn mul(self, rhs: Self) -> (r: Self)
        ensures
            r@ == (self@ * rhs@) % (FIELD_PRIME as int),
    {
        proof {
            use_type_invariant(self);
            use_type_invariant(rhs);
        }
        FieldElement { value: mul_mod(self.value, rhs.value) }
    }

    /// The additive inverse, as the residue `(p - value) mod p`.
    pub fn neg(self) -> (r: Self)
        ensures
            r@ == (FIELD_PRIME as int - self@) % (FIELD_PRIME as int),
    {
        proof {
            use_type_invariant(self);
        }
        if self.value == 0 {
            proof {
                lemma_mod_self_0(FIELD_PRIME as int);
            }
            FieldElement { value: 0 }
        } else {
            proof {
                lemma_small_mod((FIELD_PRIME - self.value) as nat, FIELD_PRIME as nat);
            }
            FieldElement { value: FIELD_PRIME - self.value }
        }
    }

    /// Square-and-multiply exponentiation; exponent zero yields one.
    pub fn pow(self, exp: u128) -> (r: Self)
        ensures
            r@ == powm(self@, exp as nat),
    {
        proof {
            use_type_invariant(self);
        }
        FieldElement { value: pow_mod(self.value, exp) }
    }

    /// The multiplicative inverse of a nonzero element, as the Fermat power
    /// `self^(p-2)`.
    pub fn inverse(&self) -> (r: FieldElement)
        requires
            self@ != 0,
        ensures
            r@ == inverse_spec(self@),
    {
        self.pow(FIELD_PRIME - 2)
    }

    /// Division by a nonzero element: multiplication by its inverse.
    pub fn div(self, rhs: Self) -> (r: Self)
        requires
            rhs@ != 0,
        ensures
            r@ == (self@ * inverse_spec(rhs@)) % (FIELD_PRIME as int),
    {
        self.mul(rhs.inverse())
    }

    /// The fixed element of multiplicative order `2^119`.
    pub fn generator(&self) -> (r: FieldElement)
        ensures
            r@ == ROOT_OF_UNITY as int,
    {
        FieldElement { value: ROOT_OF_UNITY }
    }

    /// The generator of the subgroup of order `n`, for `n` a power of two
    /// dividing `2^119`; obtained by repeated squaring of the fixed root.
    pub fn primitive_nth_root(&self, n: u128) -> (r: FieldElement)
        requires
            exists|m: nat| m <= ROOT_ORDER_LOG2 && #[trigger] pow2(m) == n as nat,
        ensures
            forall|m: nat|
                m <= ROOT_ORDER_LOG2 && #[trigger] pow2(m) == n as nat ==> r@ == powm(
                    ROOT_OF_UNITY as int,
                    pow2((ROOT_ORDER_LOG2 - m) as nat),
                ),
    {
        match nth_root_checked(n) {
            Ok(root) => root,
            Err(_) => unreached(),
        }
    }

    /// A vector of the given number of zero elements.
    pub fn zeroed_vector(n: usize) -> (r: Vec<FieldElement>)
        ensures
            r@.len() == n,
            forall|i: int| 0 <= i < n ==> views(r@)[i] == 0,
    {
        let mut result: Vec<FieldElement> = Vec::new();
        let mut i: usize = 0;
        while i < n
            invariant
                i <= n,
                result@.len() == i,
                forall|t: int| 0 <= t < i ==> (#[trigger] result@[t])@ == 0,
            decreases n - i,
        {
            result.push(FieldElement::zero());
            i = i + 1;
        }
        proof {
            assert forall|i: int| 0 <= i < n implies views(result@)[i] == 0 by {
                assert(views(result@)[i] == result@[i]@);
            }
        }
        result
    }

    /// The 16-byte little-endian serialization of this element.
    pub fn to_bytes(&self) -> (r: Vec<u8>)
        ensures
            r@ == le_bytes(self@),
    {
        proof {
            use_type_invariant(self);
        }
        let mut x = self.value;
        let mut r: Vec<u8> = Vec::new();
        let mut i: usize = 0;
        proof {
            lemma2_to64();
            lemma_div_basics(self@);
        }
        while i < 16
            invariant
                i <= 16,
                x as int == self@ / (pow2((8 * i) as nat) as int),
                r@.len() == i,
                forall|t: int| 0 <= t < i ==> r@[t] == le_byte(self@, t),
            decreases 16 - i,
        {
            r.push((x % 256) as u8);
            x = x / 256;
            proof {
                lemma2_to64();
                lemma_pow2_pos((8 * i) as nat);
                lemma_div_denominator(self@, pow2((8 * i) as nat) as int, 256);
                lemma_pow2_adds((8 * i) as nat, 8);
                assert(pow2(8) == 256);
            }
            i = i + 1;
        }
        proof {
            assert(r@ =~= le_bytes(self@));
        }
        r
    }

    /// The serialization of a list of elements: 16 little-endian bytes for
    /// each, in order.
    pub fn elements_as_bytes(elements: &Vec<FieldElement>) -> (r: Vec<u8>)
        ensures
            r@ == ser_elements(views(elements@)),
    {
        let mut result: Vec<u8> = Vec::new();
        let mut e: usize = 0;
        proof {
            assert(views(elements@).take(0) =~= Seq::<int>::empty());
        }
        while e < elements.len()
            invariant
                e <= elements.len(),
                result@ == ser_elements(views(elements@).take(e as int)),
            decreases elements.len() - e,
        {
            let bytes = elements[e].to_bytes();
            append_bytes(&mut result, &bytes);
            proof {
                let v = views(elements@);
                assert(v.take(e as int + 1).drop_last() =~= v.take(e as int));
                assert(v.take(e as int + 1).last() == v[e as int]);
            }
            e = e + 1;
        }
        proof {
            assert(views(elements@).take(elements@.len() as int) =~= views(elements@));
        }
        result
    }

    /// Parses a serialized list of elements. Fails when the byte count is
    /// not a multiple of 16, and when any 16-byte chunk denotes a value that
    /// is not a canonical residue.
    pub fn bytes_as_elements(bytes: &Vec<u8>) -> (r: Result<
        Vec<FieldElement>,
        DeserializationError,
    >)
        ensures
            (r matches Ok(_)) <==> (bytes@.len() % 16 == 0 && forall|e: int|
                0 <= e < bytes@.len() / 16 ==> le_val(#[trigger] chunk(bytes@, e)) < (
                FIELD_PRIME as int)),
            r matches Ok(v) ==> v@.len() == bytes@.len() / 16 && forall|e: int|
                0 <= e < v@.len() ==> views(v@)[e] == le_val(#[trigger] chunk(bytes@, e)),
            r matches Err(err) ==> err matches DeserializationError::InvalidValue(_),
    {
        if bytes.len() % 16 != 0 {
            return Err(
                DeserializationError::InvalidValue(
                    String::from_str("byte count does not divide into whole field elements"),
                ),
            );
        }
        let count = bytes.len() / 16;
        let mut result: Vec<FieldElement> = Vec::new();
        let mut e: usize = 0;
        while e < count
            invariant
                e <= count,
                count == bytes@.len() / 16,
                bytes@.len() % 16 == 0,
                bytes@.len() <= usize::MAX,
                result@.len() == e,
                forall|t: int|
                    0 <= t < e ==> le_val(#[trigger] chunk(bytes@, t)) < (FIELD_PRIME as int),
                forall|t: int| 0 <= t < e ==> views(result@)[t] == le_val(#[trigger] chunk(bytes@, t)),
            decreases count - e,
        {
            proof {
                vstd::arithmetic::div_mod::lemma_fundamental_div_mod(bytes@.len() as int, 16);
            }
            let base = 16 * e;
            let mut acc: u128 = 0;
            let mut j: usize = 16;
            proof {
                vstd::arithmetic::div_mod::lemma_fundamental_div_mod(bytes@.len() as int, 16);
                assert(chunk(bytes@, e as int).subrange(16, 16) =~= Seq::<u8>::empty());
                lemma2_to64();
                lemma2_to64_rest();
            }
            while j > 0
                invariant
                    j <= 16,
                    e < count,
                    count == bytes@.len() / 16,
                    bytes@.len() % 16 == 0,
                    base == 16 * e,
                    base + 16 <= bytes@.len(),
                    acc as int == le_val(
                        chunk(bytes@, e as int).subrange(j as int, 16),
                    ),
                    (acc as int) < pow2((8 * (16 - j)) as nat) as int,
                decreases j,
            {
                j = j - 1;
                let ghost ch = chunk(bytes@, e as int);
                let ghost acc0 = acc as int;
                let b = bytes[base + j];
                proof {
                    lemma2_to64();
                    lemma2_to64_rest();
                    lemma_pow2_adds((8 * (15 - j)) as nat, 8);
                    assert(pow2(8) == 256);
                    assert(acc0 * 256 + b < pow2((8 * (16 - j)) as nat)) by (nonlinear_arith)
                        requires
                            acc0 < pow2((8 * (15 - j)) as nat),
                            b < 256,
                            pow2((8 * (16 - j)) as nat) == pow2((8 * (15 - j)) as nat) * 256,
                    ;
                    assert(pow2(128) == 0x100000000000000000000000000000000) by {
                        lemma_pow2_adds(64, 64);
                    }
                    lemma_pow2_strictly_increases((8 * (16 - j)) as nat, 129);
                    if 8 * (16 - j) < 128 {
                        lemma_pow2_strictly_increases((8 * (16 - j)) as nat, 128);
                    }
                }
                acc = acc * 256 + (b as u128);
                proof {
                    let ch2 = chunk(bytes@, e as int);
                    assert(ch2[j as int] == bytes@[base + j]);
                    assert(ch2.subrange(j as int, 16).subrange(1, 16 - j as int) =~= ch2.subrange(
                        j as int + 1,
                        16,
                    ));
                    assert(ch2.subrange(j as int, 16)[0] == ch2[j as int]);
                }
            }
            if acc >= FIELD_PRIME {
                proof {
                    assert(chunk(bytes@, e as int).subrange(0, 16) =~= chunk(bytes@, e as int));
                }
                return Err(
                    DeserializationError::InvalidValue(
                        String::from_str("bytes denote a value outside the field"),
                    ),
                );
            }
            proof {
                assert(chunk(bytes@, e as int).subrange(0, 16) =~= chunk(bytes@, e as int));
            }
            result.push(FieldElement { value: acc });
            e = e + 1;
        }
        Ok(result)
    }

    /// Deterministically maps a byte string into the field by big-endian
    /// accumulation modulo the prime.
    pub fn sample(bytes: &Vec<u8>) -> (r: FieldElement)
        ensures
            r@ == sample_spec(bytes@),
    {
        let mut acc: u128 = 0;
        let mut i: usize = 0;
        proof {
            assert(bytes@.take(0) =~= Seq::<u8>::empty());
        }
        while i < bytes.len()
            invariant
                i <= bytes.len(),
                acc < FIELD_PRIME,
                acc as int == sample_spec(bytes@.take(i as int)),
            decreases bytes.len() - i,
        {
            let ghost prefix = bytes@.take(i as int);
            let b = bytes[i];
            let shifted = mul_mod(acc, 256);
            let ghost acc0 = acc as int;
            acc = add_mod(shifted, b as u128);
            proof {
                let p = FIELD_PRIME as int;
                lemma_add_mod_noop(acc0 * 256, b as int, p);
                lemma_small_mod(b as nat, FIELD_PRIME as nat);
                assert(acc as int == (acc0 * 256 + b) % p);
                assert(bytes@.take(i + 1).drop_last() =~= prefix);
                assert(bytes@.take(i + 1).last() == bytes@[i as int]);
            }
            i = i + 1;
        }
        proof {
            assert(bytes@.take(bytes@.len() as int) =~= bytes@);
        }
        FieldElement { value: acc }
    }
}

/// Appends one byte string to another.
pub fn append_bytes(dst: &mut Vec<u8>, src: &Vec<u8>)
    ensures
        final(dst)@ == old(dst)@ + src@,
{
    let ghost base = dst@;
    let mut i: usize = 0;
    while i < src.len()
        invariant
            i <= src.len(),
            dst@ == base + src@.take(i as int),
        decreases src.len() - i,
    {
        dst.push(src[i]);
        proof {
            assert(base + src@.take(i as int + 1) =~= (base + src@.take(i as int)).push(
                src@[i as int],
            ));
        }
        i = i + 1;
    }
    proof {
        assert(base + src@.take(src@.len() as int) =~= base + src@);
    }
}

/// Two is not a power of two larger than one twice over: equal powers of two
/// have equal exponents.
proof fn lemma_pow2_injective(m: nat, k: nat)
    requires
        pow2(m) == pow2(k),
    ensures
        m == k,
{
    if m < k {
        lemma_pow2_strictly_increases(m, k);
    } else if k < m {
        lemma_pow2_strictly_increases(k, m);
    }
}

/// The shared search for the generator of the order-`n` subgroup: square the
/// fixed root, halving the subgroup order, until the order reaches `n`.
/// Succeeds exactly when `n` is a power of two no larger than `2^119`.
fn nth_root_checked(n: u128) -> (r: Result<FieldElement, FieldError>)
    ensures
        (r matches Ok(_)) <==> exists|m: nat|
            m <= ROOT_ORDER_LOG2 && #[trigger] pow2(m) == n as nat,
        forall|m: nat|
            m <= ROOT_ORDER_LOG2 && #[trigger] pow2(m) == n as nat ==> (r matches Ok(x) && x@
                == powm(ROOT_OF_UNITY as int, pow2((ROOT_ORDER_LOG2 - m) as nat))),
        r matches Err(e) ==> e == FieldError::UnsupportedOrder,
{
    if n == 0 {
        proof {
            assert forall|m: nat| m <= ROOT_ORDER_LOG2 implies #[trigger] pow2(m) != 0 by {
                lemma_pow2_pos(m);
            }
        }
        return Err(FieldError::UnsupportedOrder);
    }
    let mut root: u128 = ROOT_OF_UNITY;
    let mut order: u128 = 664613997892457936451903530140172288;
    let ghost mut k: nat = 119nat;
    proof {
        lemma2_to64();
        lemma2_to64_rest();
        lemma_pow2_adds(64, 55);
        assert(pow2(119) == pow2(64) * pow2(55));
        assert(pow2(119) == 664613997892457936451903530140172288);
        lemma_pow1(ROOT_OF_UNITY as int);
        lemma_small_mod(ROOT_OF_UNITY as nat, FIELD_PRIME as nat);
    }
    while order > n
        invariant
            n >= 1,
            root < FIELD_PRIME,
            order as nat == pow2(k),
            k <= 119,
            root as int == powm(ROOT_OF_UNITY as int, pow2((119 - k) as nat)),
            forall|m: nat| #[trigger] pow2(m) == n as nat && m <= 119 ==> m <= k,
        decreases order,
    {
        let ghost r0 = root as int;
        proof {
            lemma_pow2_pos(k);
            lemma2_to64();
            if k == 0 {
                assert(order == 1);
                assert(false);
            }
            lemma_pow2_unfold(k);
            assert forall|m: nat|
                #[trigger] pow2(m) == n as nat && m <= 119 implies m <= (k - 1) as nat by {
                if m == k {
                    assert(pow2(k) > n as nat);
                }
            }
        }
        root = mul_mod(root, root);
        order = order / 2;
        proof {
            k = (k - 1) as nat;
            let p = FIELD_PRIME as int;
            let e = pow2((119 - (k + 1)) as nat);
            // root^2 mod p == R^(2 * e) mod p
            lemma_mul_mod_noop_general(pow(ROOT_OF_UNITY as int, e), pow(ROOT_OF_UNITY as int, e), p);
            lemma_pow_adds(ROOT_OF_UNITY as int, e, e);
            lemma_pow2_unfold((119 - k) as nat);
            assert(pow2((119 - k) as nat) == 2 * e);
            assert(root as int == powm(ROOT_OF_UNITY as int, (e + e) as nat));
        }
    }
    if order == n {
        proof {
            assert(pow2(k) == n as nat);
        }
        let result = FieldElement { value: root };
        proof {
            assert forall|m: nat|
                m <= ROOT_ORDER_LOG2 && #[trigger] pow2(m) == n as nat implies result@ == powm(
                ROOT_OF_UNITY as int,
                pow2((ROOT_ORDER_LOG2 - m) as nat),
            ) by {
                lemma_pow2_injective(m, k);
            }
        }
        Ok(result)
    } else {
        proof {
            assert forall|m: nat| m <= ROOT_ORDER_LOG2 implies #[trigger] pow2(m) != n as nat by {
                if pow2(m) == n as nat {
                    assert(m <= k);
                    if m < k {
                        lemma_pow2_strictly_increases(m, k);
                    }
                    assert(pow2(m) <= pow2(k));
                    assert(pow2(k) < n as nat);
                }
            }
        }
        Err(FieldError::UnsupportedOrder)
    }
}

/// The fixed prime field as a configuration object; its modulus is always the
/// fixed prime, so prover and verifier can never disagree on it.
#[derive(Clone, Copy, Debug, PartialEq, Eq, Structural)]
pub struct Field {
    p: u128,
}

impl Field {
    #[verifier::type_invariant]
    spec fn type_inv(self) -> bool {
        self.p == FIELD_PRIME
    }

    /// Builds the field; the modulus must be the fixed prime.
    pub fn new(p: u128) -> (r: Field)
        requires
            p == FIELD_PRIME,
    {
        Field { p }
    }

    /// The fixed modulus.
    pub fn modulus(&self) -> (r: u128)
        ensures
            r == FIELD_PRIME,
    {
        proof {
            use_type_invariant(self);
        }
        self.p
    }

    pub fn zero(self) -> (r: FieldElement)
        ensures
            r@ == 0,
    {
        FieldElement::zero()
    }

    pub fn one(self) -> (r: FieldElement)
        ensures
            r@ == 1,
    {
        FieldElement::one()
    }

    pub fn multiply(self, left: FieldElement, right: FieldElement) -> (r: FieldElement)
        ensures
            r@ == (left@ * right@) % (FIELD_PRIME as int),
    {
        left.mul(right)
    }

    pub fn subtract(self, left: FieldElement, right: FieldElement) -> (r: FieldElement)
        ensures
            r@ == (left@ - right@) % (FIELD_PRIME as int),
    {
        left.sub(right)
    }

    pub fn add(self, left: FieldElement, right: FieldElement) -> (r: FieldElement)
        ensures
            r@ == (left@ + right@) % (FIELD_PRIME as int),
    {
        left.add(right)
    }

    pub fn negative(self, left: FieldElement) -> (r: FieldElement)
        ensures
            r@ == (FIELD_PRIME as int - left@) % (FIELD_PRIME as int),
    {
        left.neg()
    }

    /// The multiplicative inverse; asking it of zero is a division by zero.
    pub fn inverse(self, left: FieldElement) -> (r: Result<FieldElement, FieldError>)
        ensures
            (r matches Err(_)) <==> left@ == 0,
            r matches Err(e) ==> e == FieldError::DivisionByZero,
            r matches Ok(x) ==> x@ == inverse_spec(left@),
    {
        if left.is_zero() {
            Err(FieldError::DivisionByZero)
        } else {
            Ok(left.inverse())
        }
    }

    /// Division, failing on a zero divisor.
    pub fn divide(self, left: FieldElement, right: FieldElement) -> (r: Result<
        FieldElement,
        FieldError,
    >)
        ensures
            (r matches Err(_)) <==> right@ == 0,
            r matches Err(e) ==> e == FieldError::DivisionByZero,
            r matches Ok(x) ==> x@ == (left@ * inverse_spec(right@)) % (FIELD_PRIME as int),
    {
        if right.is_zero() {
            Err(FieldError::DivisionByZero)
        } else {
            Ok(left.div(right))
        }
    }

    /// The fixed element of multiplicative order `2^119`.
    pub fn generator(self) -> (r: FieldElement)
        ensures
            r@ == ROOT_OF_UNITY as int,
    {
        FieldElement { value: ROOT_OF_UNITY }
    }

    /// The generator of the subgroup of order `n`, failing when `n` is not a
    /// power of two or exceeds `2^119`.
    pub fn primitive_nth_root(self, n: u128) -> (r: Result<FieldElement, FieldError>)
        ensures
            (r matches Ok(_)) <==> exists|m: nat|
                m <= ROOT_ORDER_LOG2 && #[trigger] pow2(m) == n as nat,
            forall|m: nat|
                m <= ROOT_ORDER_LOG2 && #[trigger] pow2(m) == n as nat ==> (r matches Ok(x) && x@
                    == powm(ROOT_OF_UNITY as int, pow2((ROOT_ORDER_LOG2 - m) as nat))),
            r matches Err(e) ==> e == FieldError::UnsupportedOrder,
    {
        nth_root_checked(n)
    }

    /// Deterministically maps a byte string into the field; this is the
    /// channel through which hash output becomes field randomness.
    pub fn sample(self, byte_array: Vec<u8>) -> (r: FieldElement)
        ensures
            r@ == sample_spec(byte_array@),
    {
        FieldElement::sample(&byte_array)
    }
}

/// Distinct canonical residues stay distinct after reduction of their
/// difference: the field's subtraction of unequal elements is never zero.
pub proof fn lemma_sub_nonzero(a: int, b: int)
    requires
        0 <= a < FIELD_PRIME as int,
        0 <= b < FIELD_PRIME as int,
        a != b,
    ensures
        (a - b) % (FIELD_PRIME as int) != 0,
{
    let p = FIELD_PRIME as int;
    if a > b {
        lemma_small_mod((a - b) as nat, FIELD_PRIME as nat);
    } else {
        lemma_mod_add_multiples_vanish(a - b, p);
        lemma_small_mod((a - b + p) as nat, FIELD_PRIME as nat);
    }
}

/// Additive-inverse law: adding any element of the field to its additive
/// inverse yields zero.
pub proof fn lemma_add_negative_is_zero(a: int)
    requires
        0 <= a < FIELD_PRIME as int,
    ensures
        (a + ((FIELD_PRIME as int - a) % (FIELD_PRIME as int))) % (FIELD_PRIME as int) == 0,
{
    let p = FIELD_PRIME as int;
    if a == 0 {
        lemma_mod_self_0(p);
    } else {
        lemma_small_mod((FIELD_PRIME as int - a) as nat, FIELD_PRIME as nat);
        lemma_mod_self_0(p);
    }
}

} // verus!

