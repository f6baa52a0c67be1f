use vstd::prelude::*;
use vstd::arithmetic::div_mod::*;
use crate::field::FieldElement;
use crate::field::FIELD_PRIME;
use crate::field::powm;
use crate::field::invertible;
use crate::field::inverse_spec;
pub use crate::field::views;

verus! {

/// The coefficient of `X^k`, with indices outside the vector reading as zero:
/// a shorter vector is zero-padded.
pub open spec fn coeff(s: Seq<int>, k: int) -> int {
    if 0 <= k < s.len() {
        s[k]
    } else {
        0
    }
}

/// The first `n` terms of the convolution sum for the coefficient of `X^k` in
/// a product, reduced into the field at every step.
pub open spec fn conv_prefix(a: Seq<int>, b: Seq<int>, k: int, n: nat) -> int
    decreases n,
{
    if n == 0 {
        0
    } else {
        (conv_prefix(a, b, k, (n - 1) as nat) + (coeff(a, n - 1) * coeff(b, k - (n - 1)))
            % (FIELD_PRIME as int)) % (FIELD_PRIME as int)
    }
}

/// The coefficient of `X^k` in the product of two coefficient vectors:
/// the convolution `sum_i a_i * b_(k-i)` in the field.
pub open spec fn conv(a: Seq<int>, b: Seq<int>, k: int) -> int {
    conv_prefix(a, b, k, a.len())
}

/// Sum of two polynomials, coefficient by coefficient in the field.
pub open spec fn padd(a: Seq<int>, b: Seq<int>) -> Seq<int> {
    Seq::new(
        if a.len() >= b.len() {
            a.len()
        } else {
            b.len()
        },
        |k: int| (coeff(a, k) + coeff(b, k)) % (FIELD_PRIME as int),
    )
}

/// Difference of two polynomials, coefficient by coefficient in the field.
pub open spec fn psub(a: Seq<int>, b: Seq<int>) -> Seq<int> {
    Seq::new(
        if a.len() >= b.len() {
            a.len()
        } else {
            b.len()
        },
        |k: int| (coeff(a, k) - coeff(b, k)) % (FIELD_PRIME as int),
    )
}

/// Product of two polynomials: every coefficient is the convolution of the
/// factors' coefficients; an empty factor stands for zero, so the product is
/// empty too.
pub open spec fn pmul(a: Seq<int>, b: Seq<int>) -> Seq<int> {
    if a.len() == 0 || b.len() == 0 {
        Seq::empty()
    } else {
        Seq::new((a.len() + b.len() - 1) as nat, |k: int| conv(a, b, k))
    }
}

/// The index of the highest non-zero coefficient, or zero when there is none.
pub open spec fn degree_of_spec(s: Seq<int>) -> int
    decreases s.len(),
{
    if s.len() == 0 {
        0
    } else if s.last() != 0 {
        s.len() - 1
    } else {
        degree_of_spec(s.drop_last())
    }
}

/// The all-zero polynomial, in any padding.
pub open spec fn is_zero_spec(s: Seq<int>) -> bool {
    forall|k: int| 0 <= k < s.len() ==> s[k] == 0
}

/// The value of the polynomial at a point, by the Horner recurrence.
pub open spec fn eval_spec(s: Seq<int>, x: int) -> int
    decreases s.len(),
{
    if s.len() == 0 {
        0
    } else {
        (s[0] + x * eval_spec(s.subrange(1, s.len() as int), x)) % (FIELD_PRIME as int)
    }
}

/// The Lagrange basis numerator-and-weight product for interpolation point
/// `i`, taken over the first `j` domain points: the product of
/// `(X - d_t) / (d_i - d_t)` for `t < j`, `t != i`, scaled by `v_i`.
pub open spec fn lagrange_term(d: Seq<int>, v: Seq<int>, i: int, j: nat) -> Seq<int>
    decreases j,
{
    if j == 0 {
        seq![coeff(v, i)]
    } else if i == j - 1 {
        lagrange_term(d, v, i, (j - 1) as nat)
    } else {
        pmul(
            lagrange_term(d, v, i, (j - 1) as nat),
            pmul(
                psub(seq![0, 1], seq![coeff(d, j - 1)]),
                seq![inverse_spec((coeff(d, i) - coeff(d, j - 1)) % (FIELD_PRIME as int))],
            ),
        )
    }
}

/// The interpolating polynomial through the first `n` points, as the
/// Lagrange sum of the basis terms.
pub open spec fn lagrange_sum(d: Seq<int>, v: Seq<int>, n: nat) -> Seq<int>
    decreases n,
{
    if n == 0 {
        Seq::empty()
    } else {
        padd(lagrange_sum(d, v, (n - 1) as nat), lagrange_term(d, v, n - 1, d.len()))
    }
}

/// The unique minimal-degree polynomial through the given points, by Lagrange
/// interpolation.
pub open spec fn interpolate_spec(d: Seq<int>, v: Seq<int>) -> Seq<int> {
    lagrange_sum(d, v, d.len())
}

/// The vanishing polynomial of a domain: the product of `(X - d_t)` over the
/// first `n` domain points.
pub open spec fn zerofier_spec(d: Seq<int>, n: nat) -> Seq<int>
    decreases n,
{
    if n == 0 {
        seq![1]
    } else {
        pmul(zerofier_spec(d, (n - 1) as nat), psub(seq![0, 1], seq![coeff(d, n - 1)]))
    }
}

/// The `e`-th power of a polynomial, by repeated multiplication; the zeroth
/// power is the constant one.
pub open spec fn poly_pow_spec(a: Seq<int>, e: nat) -> Seq<int>
    decreases e,
{
    if e == 0 {
        seq![1]
    } else {
        pmul(poly_pow_spec(a, (e - 1) as nat), a)
    }
}

/// The long-division identity: the dividend is the quotient times the
/// divisor plus the remainder, coefficient by coefficient in the field.
pub open spec fn divides_with_remainder(
    va: Seq<int>,
    vq: Seq<int>,
    vb: Seq<int>,
    vrem: Seq<int>,
) -> bool {
    forall|k: int|
        0 <= k ==> #[trigger] coeff(va, k) == (conv(vq, vb, k) + coeff(vrem, k)) % (
        FIELD_PRIME as int)
}

/// Some quotient pairs with this remainder to rebuild the dividend.
pub open spec fn some_quotient_fits(va: Seq<int>, vb: Seq<int>, vrem: Seq<int>) -> bool {
    exists|vq: Seq<int>| #[trigger] divides_with_remainder(va, vq, vb, vrem)
}

/// Every convolution prefix is a canonical residue.
proof fn lemma_conv_prefix_bound(a: Seq<int>, b: Seq<int>, k: int, n: nat)
    ensures
        0 <= conv_prefix(a, b, k, n) < FIELD_PRIME as int,
{
    if n == 0 {
    } else {
        lemma_mod_bound(
            conv_prefix(a, b, k, (n - 1) as nat) + (coeff(a, n - 1) * coeff(b, k - (n - 1)))
                % (FIELD_PRIME as int),
            FIELD_PRIME as int,
        );
    }
}

/// Dense coefficient-vector polynomial algebra over the fixed prime field;
/// every operation returns a fresh vector and never mutates its inputs.
pub struct Polynomial {}

impl Polynomial {
    /// The index of the highest non-zero coefficient; zero when all
    /// coefficients are zero.
    pub fn degree_of(poly: &Vec<FieldElement>) -> (r: usize)
        ensures
            r as int == degree_of_spec(views(poly@)),
    {
        let ghost s = views(poly@);
        let mut i: usize = poly.len();
        proof {
            assert(s.take(poly@.len() as int) =~= s);
        }
        while i > 0
            invariant
                i <= poly.len(),
                s == views(poly@),
                degree_of_spec(s) == degree_of_spec(s.take(i as int)),
            decreases i,
        {
            if !poly[i - 1].is_zero() {
                proof {
                    assert(s.take(i as int).last() == poly@[i - 1]@);
                }
                return i - 1;
            }
            proof {
                assert(s.take(i as int).last() == poly@[i - 1]@);
                assert(s.take(i as int).drop_last() =~= s.take(i - 1));
            }
            i = i - 1;
        }
        proof {
            assert(s.take(0) =~= Seq::<int>::empty());
        }
        0
    }

    /// Whether every coefficient is zero.
    pub fn is_zero(polynom: &Vec<FieldElement>) -> (r: bool)
        ensures
            r == is_zero_spec(views(polynom@)),
    {
        let mut i: usize = 0;
        while i < polynom.len()
            invariant
                i <= polynom.len(),
                forall|k: int| 0 <= k < i ==> views(polynom@)[k] == 0,
            decreases polynom.len() - i,
        {
            if !polynom[i].is_zero() {
                proof {
                    assert(views(polynom@)[i as int] != 0);
                }
                return false;
            }
            i = i + 1;
        }
        true
    }

    /// The coefficient at the polynomial's degree.
    pub fn leading_coefficient(polynom: &Vec<FieldElement>) -> (r: FieldElement)
        requires
            polynom.len() > 0,
        ensures
            r@ == coeff(views(polynom@), degree_of_spec(views(polynom@))),
    {
        proof {
            lemma_degree_of_spec_bounds(views(polynom@));
        }
        let d = Self::degree_of(polynom);
        polynom[d]
    }

    /// Coefficient-wise sum; the shorter summand reads as zero-padded.
    pub fn add(a: &Vec<FieldElement>, b: &Vec<FieldElement>) -> (r: Vec<FieldElement>)
        ensures
            views(r@) == padd(views(a@), views(b@)),
            r@.len() == if a@.len() >= b@.len() {
                a@.len()
            } else {
                b@.len()
            },
    {
        let ghost goal = padd(views(a@), views(b@));
        let result_len = if a.len() >= b.len() {
            a.len()
        } else {
            b.len()
        };
        let mut result: Vec<FieldElement> = Vec::new();
        let mut i: usize = 0;
        while i < result_len
            invariant
                i <= result_len,
                result_len == if a.len() >= b.len() {
                    a.len()
                } else {
                    b.len()
                },
                goal == padd(views(a@), views(b@)),
                result@.len() == i,
                forall|k: int| 0 <= k < i ==> views(result@)[k] == goal[k],
            decreases result_len - i,
        {
            let c1 = if i < a.len() {
                a[i]
            } else {
                FieldElement::zero()
            };
            let c2 = if i < b.len() {
                b[i]
            } else {
                FieldElement::zero()
            };
            result.push(c1.add(c2));
            i = i + 1;
        }
        proof {
            assert(views(result@) =~= goal);
        }
        result
    }

    /// Coefficient-wise difference; the shorter side reads as zero-padded.
    pub fn sub(a: &Vec<FieldElement>, b: &Vec<FieldElement>) -> (r: Vec<FieldElement>)
        ensures
            views(r@) == psub(views(a@), views(b@)),
            r@.len() == if a@.len() >= b@.len() {
                a@.len()
            } else {
                b@.len()
            },
    {
        let ghost goal = psub(views(a@), views(b@));
        let result_len = if a.len() >= b.len() {
            a.len()
        } else {
            b.len()
        };
        let mut result: Vec<FieldElement> = Vec::new();
        let mut i: usize = 0;
        while i < result_len
            invariant
                i <= result_len,
                result_len == if a.len() >= b.len() {
                    a.len()
                } else {
                    b.len()
                },
                goal == psub(views(a@), views(b@)),
                result@.len() == i,
                forall|k: int| 0 <= k < i ==> views(result@)[k] == goal[k],
            decreases result_len - i,
        {
            let c1 = if i < a.len() {
                a[i]
            } else {
                FieldElement::zero()
            };
            let c2 = if i < b.len() {
                b[i]
            } else {
                FieldElement::zero()
            };
            result.push(c1.sub(c2));
            i = i + 1;
        }
        proof {
            assert(views(result@) =~= goal);
        }
        result
    }

    /// The naive convolution product; an empty factor stands for the zero
    /// polynomial and yields an empty product.
    pub fn mul(a: &Vec<FieldElement>, b: &Vec<FieldElement>) -> (r: Vec<FieldElement>)
        requires
            a.len() + b.len() <= usize::MAX,
        ensures
            views(r@) == pmul(views(a@), views(b@)),
            r@.len() as int == if a@.len() == 0 || b@.len() == 0 {
                0int
            } else {
                a@.len() + b@.len() - 1
            },
    {
        let ghost goal = pmul(views(a@), views(b@));
        if a.len() == 0 || b.len() == 0 {
            let result: Vec<FieldElement> = Vec::new();
            proof {
                assert(views(result@) =~= goal);
            }
            return result;
        }
        let result_len = a.len() + b.len() - 1;
        let mut result: Vec<FieldElement> = Vec::new();
        let mut k: usize = 0;
        while k < result_len
            invariant
                k <= result_len,
                result_len == a.len() + b.len() - 1,
                a.len() > 0,
                b.len() > 0,
                goal == pmul(views(a@), views(b@)),
                result@.len() == k,
                forall|t: int| 0 <= t < k ==> views(result@)[t] == goal[t],
            decreases result_len - k,
        {
            let mut acc = FieldElement::zero();
            let mut i: usize = 0;
            while i < a.len()
                invariant
                    i <= a.len(),
                    k < result_len,
                    result_len == a.len() + b.len() - 1,
                    b.len() > 0,
                    acc@ == conv_prefix(views(a@), views(b@), k as int, i as nat),
                decreases a.len() - i,
            {
                let ghost acc0 = acc@;
                if i <= k && k - i < b.len() {
                    acc = acc.add(a[i].mul(b[k - i]));
                } else {
                    proof {
                        lemma_conv_prefix_bound(views(a@), views(b@), k as int, i as nat);
                        lemma_small_mod(acc0 as nat, FIELD_PRIME as nat);
                        assert(coeff(views(a@), i as int) * coeff(views(b@), k - i) == 0
                            || coeff(views(a@), i as int) == 0) by {
                            if i > k || k - i >= b.len() {
                                assert(coeff(views(b@), k - i) == 0 || !(0 <= i < a.len()));
                            }
                        }
                    }
                }
                i = i + 1;
            }
            result.push(acc);
            k = k + 1;
        }
        proof {
            assert(views(result@) =~= goal);
        }
        result
    }

    /// Standard polynomial long division: the quotient and a remainder whose
    /// coefficients vanish from the divisor's degree upward, in a vector of
    /// the dividend's length. Fails exactly when the divisor is the zero
    /// polynomial, or when its leading coefficient is not inverted by its
    /// Fermat power — a case Fermat's little theorem rules out for every
    /// nonzero divisor, but which is checked once rather than returned as a
    /// wrong-but-plausible remainder, since that theorem is beyond this
    /// development.
    pub fn division(a: &Vec<FieldElement>, b: &Vec<FieldElement>) -> (r: Option<
        (Vec<FieldElement>, Vec<FieldElement>),
    >)
        ensures
            (r matches None) <==> (is_zero_spec(views(b@)) || !invertible(
                coeff(views(b@), degree_of_spec(views(b@))),
            )),
            r matches Some(qr) ==> qr.1@.len() == a@.len(),
            r matches Some(qr) ==> forall|k: int|
                k >= degree_of_spec(views(b@)) ==> #[trigger] coeff(views(qr.1@), k) == 0,
            r matches Some(qr) ==> (is_zero_spec(views(a@)) ==> is_zero_spec(views(qr.1@))),
            r matches Some(qr) ==> qr.0@.len() as int == (if a@.len() > 0 && degree_of_spec(
                views(a@),
            ) >= degree_of_spec(views(b@)) {
                degree_of_spec(views(a@)) - degree_of_spec(views(b@)) + 1
            } else {
                0
            }),
            r matches Some(qr) ==> divides_with_remainder(
                views(a@),
                views(qr.0@),
                views(b@),
                views(qr.1@),
            ),
    {
        let ghost p = FIELD_PRIME as int;
        let ghost va = views(a@);
        let ghost vb = views(b@);
        if Self::is_zero(b) {
            return None;
        }
        assert(b@.len() > 0) by {
            assert(!is_zero_spec(vb));
        }
        let db = Self::degree_of(b);
        proof {
            lemma_degree_of_spec_bounds(vb);
            lemma_degree_of_spec_nonzero(vb);
        }
        let lcb = b[db];
        let lcb_inv = lcb.inverse();
        let cancel = lcb.mul(lcb_inv);
        if cancel.value() != 1 {
            proof {
                assert(!invertible(coeff(vb, degree_of_spec(vb))));
            }
            return None;
        }
        proof {
            assert(invertible(coeff(vb, degree_of_spec(vb))));
        }
        if a.len() == 0 {
            let q: Vec<FieldElement> = Vec::new();
            let rem: Vec<FieldElement> = Vec::new();
            proof {
                assert(views(rem@).len() == 0);
                lemma_small_mod(0nat, FIELD_PRIME as nat);
                assert forall|k: int| 0 <= k implies #[trigger] coeff(va, k) == (conv(
                    views(q@),
                    vb,
                    k,
                ) + coeff(views(rem@), k)) % p by {
                    assert(views(q@).len() == 0);
                    assert(conv(views(q@), vb, k) == 0);
                }
            }
            return Some((q, rem));
        }
        let da = Self::degree_of(a);
        proof {
            lemma_degree_of_spec_bounds(va);
        }
        let mut rem: Vec<FieldElement> = Vec::new();
        let mut t: usize = 0;
        while t < a.len()
            invariant
                t <= a.len(),
                va == views(a@),
                rem@.len() == t,
                forall|x: int| 0 <= x < t ==> views(rem@)[x] == va[x],
                forall|x: int| 0 <= x < t ==> 0 <= #[trigger] va[x] < FIELD_PRIME as int,
            decreases a.len() - t,
        {
            let elem = a[t];
            proof {
                use_type_invariant(elem);
                elem.lemma_wf_bounds();
            }
            rem.push(elem);
            t = t + 1;
        }
        proof {
            assert(views(rem@) =~= va);
        }
        if da < db {
            let q: Vec<FieldElement> = Vec::new();
            proof {
                assert forall|k: int| k >= db implies #[trigger] coeff(views(rem@), k) == 0 by {
                    lemma_coeff_above_degree(va, k);
                }
                lemma_small_mod(0nat, FIELD_PRIME as nat);
                assert forall|k: int| 0 <= k implies #[trigger] coeff(va, k) == (conv(
                    views(q@),
                    vb,
                    k,
                ) + coeff(views(rem@), k)) % p by {
                    assert(views(q@).len() == 0);
                    assert(conv(views(q@), vb, k) == 0);
                    if k < va.len() {
                        lemma_small_mod(va[k] as nat, FIELD_PRIME as nat);
                    }
                }
            }
            return Some((q, rem));
        }
        let mut q: Vec<FieldElement> = Vec::new();
        let qlen = da - db + 1;
        let mut t2: usize = 0;
        while t2 < qlen
            invariant
                t2 <= qlen,
                q@.len() == t2,
                forall|x: int| 0 <= x < t2 ==> (#[trigger] q@[x])@ == 0,
            decreases qlen - t2,
        {
            q.push(FieldElement::zero());
            t2 = t2 + 1;
        }
        proof {
            lemma_small_mod(0nat, FIELD_PRIME as nat);
            assert forall|x: int| 0 <= x < q@.len() implies #[trigger] views(q@)[x] == 0 by {
                assert(views(q@)[x] == q@[x]@);
            }
            assert forall|k: int| 0 <= k implies #[trigger] coeff(va, k) == (conv_int(
                views(q@),
                vb,
                k,
                views(q@).len(),
            ) + coeff(views(rem@), k)) % p by {
                assert forall|i: int| 0 <= i < views(q@).len() implies coeff(views(q@), i)
                    * coeff(vb, k - i) == 0 by {
                    assert(coeff(views(q@), i) == 0);
                }
                lemma_conv_int_extend(views(q@), vb, k, 0, views(q@).len());
                if k < va.len() {
                    lemma_small_mod(va[k] as nat, FIELD_PRIME as nat);
                }
            }
        }
        proof {
            assert forall|k: int| k >= qlen + db implies #[trigger] coeff(views(rem@), k) == 0 by {
                lemma_coeff_above_degree(va, k);
            }
        }
        let mut s: usize = qlen;
        while s > 0
            invariant
                a@.len() <= usize::MAX,
                s <= qlen,
                qlen == da - db + 1,
                p == FIELD_PRIME as int,
                db <= da,
                da < a@.len(),
                db < b@.len(),
                db as int == degree_of_spec(vb),
                va == views(a@),
                vb == views(b@),
                lcb_inv@ == inverse_spec(vb[db as int]),
                (vb[db as int] * inverse_spec(vb[db as int])) % p == 1,
                rem@.len() == a@.len(),
                q@.len() == qlen,
                forall|x: int| 0 <= x < rem@.len() ==> 0 <= #[trigger] views(rem@)[x] < FIELD_PRIME as int,
                forall|x: int| 0 <= x < s ==> views(q@)[x] == 0,
                forall|k: int| k >= s + db ==> #[trigger] coeff(views(rem@), k) == 0,
                is_zero_spec(va) ==> (forall|x: int|
                    0 <= x < rem@.len() ==> #[trigger] views(rem@)[x] == 0),
                forall|k: int|
                    0 <= k ==> #[trigger] coeff(va, k) == (conv_int(views(q@), vb, k, q@.len())
                        + coeff(views(rem@), k)) % p,
            decreases s,
        {
            s = s - 1;
            let ghost vq0 = views(q@);
            let ghost vrem0 = views(rem@);
            let c = rem[s + db].mul(lcb_inv);
            q[s] = c;
            let ghost vq1 = views(q@);
            proof {
                assert(vq1 =~= vq0.update(s as int, c@));
            }
            let mut j: usize = 0;
            while j <= db
                invariant
                    a@.len() <= usize::MAX,
                    j <= db + 1,
                    p == FIELD_PRIME as int,
                    s + db < a@.len(),
                    db < b@.len(),
                    vb == views(b@),
                    rem@.len() == a@.len(),
                    forall|x: int|
                        0 <= x < rem@.len() ==> 0 <= #[trigger] views(rem@)[x] < FIELD_PRIME as int,
                    forall|k: int|
                        s <= k < s + j ==> #[trigger] coeff(views(rem@), k) == (coeff(vrem0, k) - (
                        c@ * coeff(vb, k - s)) % p) % p,
                    forall|k: int|
                        !(s <= k < s + j) ==> #[trigger] coeff(views(rem@), k) == coeff(vrem0, k),
                decreases db + 1 - j,
            {
                let ghost vrem_here = views(rem@);
                let step = c.mul(b[j]);
                let updated = rem[s + j].sub(step);
                rem[s + j] = updated;
                proof {
                    assert(views(rem@) =~= vrem_here.update(s + j, updated@));
                    lemma_mod_bound(vrem_here[s + j] - step@, p);
                    assert(coeff(vrem_here, s + j) == coeff(vrem0, s + j));
                    assert(coeff(vrem_here, s + j) == vrem_here[s + j]);
                    assert(step@ == (c@ * coeff(vb, j as int)) % p);
                    assert(updated@ == (coeff(vrem0, s + j) - (c@ * coeff(vb, j as int)) % p) % p);
                    assert(coeff(views(rem@), s + j) == updated@);
                    assert forall|k: int|
                        s <= k < s + j + 1 implies #[trigger] coeff(views(rem@), k) == (coeff(
                        vrem0,
                        k,
                    ) - (c@ * coeff(vb, k - s)) % p) % p by {
                        if k < s + j {
                            assert(coeff(vrem_here, k) == (coeff(vrem0, k) - (c@ * coeff(
                                vb,
                                k - s,
                            )) % p) % p);
                            assert(coeff(views(rem@), k) == coeff(vrem_here, k));
                        }
                    }
                    assert forall|k: int|
                        !(s <= k < s + j + 1) implies #[trigger] coeff(views(rem@), k) == coeff(
                        vrem0,
                        k,
                    ) by {
                        assert(coeff(views(rem@), k) == coeff(vrem_here, k));
                        assert(coeff(vrem_here, k) == coeff(vrem0, k));
                    }
                }
                j = j + 1;
            }
            proof {
                // reassemble the identity for the smaller quotient slot
                assert forall|k: int|
                    0 <= k implies #[trigger] coeff(va, k) == (conv_int(views(q@), vb, k, q@.len())
                    + coeff(views(rem@), k)) % p by {
                    let t_term = c@ * coeff(vb, k - s);
                    let cv0 = conv_int(vq0, vb, k, qlen as nat);
                    assert(conv_int(views(q@), vb, k, q@.len()) == cv0 + t_term) by {
                        lemma_conv_int_update(vq0, vb, k, qlen as nat, s as int, c@);
                        assert(vq0[s as int] == 0);
                        assert((c@ - 0) * coeff(vb, k - s) == c@ * coeff(vb, k - s))
                            by (nonlinear_arith);
                    }
                    if s <= k < s + db + 1 {
                        assert(coeff(views(rem@), k) == (coeff(vrem0, k) - t_term % p) % p);
                        lemma_identity_step(coeff(va, k), cv0, coeff(vrem0, k), t_term);
                    } else {
                        assert(coeff(views(rem@), k) == coeff(vrem0, k));
                        if k - s > db {
                            lemma_coeff_above_degree(vb, k - s);
                        }
                        assert(coeff(vb, k - s) == 0);
                        assert(c@ * coeff(vb, k - s) == 0) by (nonlinear_arith)
                            requires
                                coeff(vb, k - s) == 0,
                        ;
                    }
                }
                // the leading slot cancels: c was chosen so that c * lc == a0
                let a0 = vrem0[s + db];
                let i0 = inverse_spec(vb[db as int]);
                let l0 = vb[db as int];
                assert(coeff(views(rem@), s + db) == (a0 - (c@ * coeff(vb, db as int)) % p) % p);
                assert(c@ == (a0 * i0) % p);
                lemma_mul_mod_noop_left(a0 * i0, l0, p);
                vstd::arithmetic::mul::lemma_mul_is_associative(a0, i0, l0);
                lemma_mul_mod_noop_right(a0, i0 * l0, p);
                vstd::arithmetic::mul::lemma_mul_is_commutative(i0, l0);
                assert((c@ * l0) % p == (a0 * ((l0 * i0) % p)) % p);
                assert((c@ * l0) % p == (a0 * 1) % p);
                lemma_small_mod(a0 as nat, FIELD_PRIME as nat);
                assert((c@ * l0) % p == a0);
                lemma_small_mod(0nat, FIELD_PRIME as nat);
                assert(coeff(views(rem@), s + db) == 0);
                // under a zero dividend nothing ever becomes nonzero
                if is_zero_spec(va) {
                    assert(vrem0[s + db] == 0);
                    assert(c@ == (vrem0[s + db] * lcb_inv@) % p);
                    assert(vrem0[s + db] * lcb_inv@ == 0) by (nonlinear_arith)
                        requires
                            vrem0[s + db] == 0,
                    ;
                    lemma_small_mod(0nat, FIELD_PRIME as nat);
                    assert(c@ == 0);
                    assert forall|x: int| 0 <= x < rem@.len() implies #[trigger] views(rem@)[x]
                        == 0 by {
                        if s <= x < s + db + 1 {
                            assert(coeff(views(rem@), x) == (coeff(vrem0, x) - (c@ * coeff(
                                vb,
                                x - s,
                            )) % p) % p);
                            assert(c@ * coeff(vb, x - s) == 0) by (nonlinear_arith)
                                requires
                                    c@ == 0,
                            ;
                            assert(coeff(vrem0, x) == 0);
                        } else {
                            assert(coeff(views(rem@), x) == coeff(vrem0, x));
                        }
                    }
                }
            }
            proof {
                // the cancelled slot and every slot above it is zero
                assert forall|k: int| k >= s + db implies #[trigger] coeff(views(rem@), k)
                    == 0 by {
                    if k == s + db {
                    } else {
                        assert(coeff(views(rem@), k) == coeff(vrem0, k));
                        assert(coeff(vrem0, k) == 0);
                    }
                }
            }
        }
        proof {
            if is_zero_spec(va) {
                assert forall|k: int| 0 <= k < views(rem@).len() implies views(rem@)[k] == 0 by {}
                assert(is_zero_spec(views(rem@)));
            }
            assert forall|k: int| 0 <= k implies #[trigger] coeff(va, k) == (conv(
                views(q@),
                vb,
                k,
            ) + coeff(views(rem@), k)) % p by {
                lemma_conv_prefix_is_conv_int(views(q@), vb, k, views(q@).len());
                lemma_add_mod_noop(
                    conv_int(views(q@), vb, k, views(q@).len()),
                    coeff(views(rem@), k),
                    p,
                );
                if 0 <= k < rem@.len() {
                    lemma_small_mod(views(rem@)[k] as nat, FIELD_PRIME as nat);
                } else {
                    lemma_small_mod(0nat, FIELD_PRIME as nat);
                }
            }
        }
        Some((q, rem))
    }

    /// Exact division: fails when the divisor is zero (or its leading
    /// coefficient fails the Fermat inversion check, which never happens),
    /// and also when the remainder of the long division is not zero. A zero
    /// dividend always divides.
    pub fn div(a: &Vec<FieldElement>, b: &Vec<FieldElement>) -> (r: Option<Vec<FieldElement>>)
        ensures
            (r matches Some(_)) ==> !is_zero_spec(views(b@)),
            is_zero_spec(views(b@)) || !invertible(
                coeff(views(b@), degree_of_spec(views(b@))),
            ) ==> (r matches None),
            !is_zero_spec(views(b@)) && invertible(
                coeff(views(b@), degree_of_spec(views(b@))),
            ) && is_zero_spec(views(a@)) ==> (r matches Some(_)),
            r matches Some(quo) ==> forall|k: int|
                0 <= k ==> #[trigger] coeff(views(a@), k) == conv(views(quo@), views(b@), k),
    {
        match Self::division(a, b) {
            None => None,
            Some((quo, rem)) => {
                if Self::is_zero(&rem) {
                    proof {
                        assert forall|k: int| 0 <= k implies #[trigger] coeff(views(a@), k)
                            == conv(views(quo@), views(b@), k) by {
                            assert(coeff(views(rem@), k) == 0);
                            lemma_conv_prefix_bound(views(quo@), views(b@), k, views(quo@).len());
                            lemma_small_mod(
                                conv(views(quo@), views(b@), k) as nat,
                                FIELD_PRIME as nat,
                            );
                        }
                    }
                    Some(quo)
                } else {
                    None
                }
            },
        }
    }

    /// The remainder of the long division: of degree below the divisor's.
    /// Fails exactly when the divisor is the zero polynomial (or its leading
    /// coefficient fails the Fermat inversion check, which never happens).
    pub fn module(a: &Vec<FieldElement>, b: &Vec<FieldElement>) -> (r: Option<Vec<FieldElement>>)
        ensures
            (r matches None) <==> (is_zero_spec(views(b@)) || !invertible(
                coeff(views(b@), degree_of_spec(views(b@))),
            )),
            r matches Some(rem) ==> rem@.len() == a@.len(),
            r matches Some(rem) ==> forall|k: int|
                k >= degree_of_spec(views(b@)) ==> #[trigger] coeff(views(rem@), k) == 0,
            r matches Some(remv) ==> some_quotient_fits(views(a@), views(b@), views(remv@)),
    {
        match Self::division(a, b) {
            None => None,
            Some((quo, rem)) => {
                proof {
                    assert(divides_with_remainder(views(a@), views(quo@), views(b@), views(rem@)));
                    assert(some_quotient_fits(views(a@), views(b@), views(rem@)));
                }
                Some(rem)
            },
        }
    }

    /// The `exponent`-th power, by repeated multiplication; the zero
    /// polynomial yields the empty (zero) polynomial.
    pub fn xor(a: &Vec<FieldElement>, exponent: u128) -> (r: Vec<FieldElement>)
        requires
            (a@.len() as int - 1) * (exponent as int) + 2 <= usize::MAX as int,
        ensures
            views(r@) == if is_zero_spec(views(a@)) {
                Seq::<int>::empty()
            } else {
                poly_pow_spec(views(a@), exponent as nat)
            },
    {
        if Self::is_zero(a) {
            let r: Vec<FieldElement> = Vec::new();
            proof {
                assert(views(r@) =~= Seq::<int>::empty());
            }
            return r;
        }
        let mut acc: Vec<FieldElement> = Vec::new();
        acc.push(FieldElement::one());
        proof {
            assert(views(acc@) =~= seq![1int]);
            assert(a@.len() >= 1) by {
                assert(!is_zero_spec(views(a@)));
            }
        }
        let mut i: u128 = 0;
        while i < exponent
            invariant
                i <= exponent,
                a@.len() >= 1,
                (a@.len() as int - 1) * (exponent as int) + 2 <= usize::MAX as int,
                views(acc@) == poly_pow_spec(views(a@), i as nat),
                acc@.len() as int == 1 + (i as int) * (a@.len() as int - 1),
            decreases exponent - i,
        {
            let ghost l = a@.len() as int;
            let ghost i0 = i as int;
            let ghost e = exponent as int;
            proof {
                assert(1 + i0 * (l - 1) + l <= usize::MAX as int) by (nonlinear_arith)
                    requires
                        i0 <= e - 1,
                        l >= 1,
                        (l - 1) * e + 2 <= usize::MAX as int,
                ;
            }
            proof {
                vstd::arithmetic::mul::lemma_mul_nonnegative(i0, l - 1);
            }
            acc = Self::mul(&acc, a);
            i = i + 1;
            proof {
                assert(1 + (i0 + 1) * (l - 1) == 1 + i0 * (l - 1) + (l - 1)) by (nonlinear_arith);
            }
        }
        acc
    }

    /// The value of the polynomial at a point, by Horner evaluation.
    pub fn evaluate(a: &Vec<FieldElement>, point: FieldElement) -> (r: FieldElement)
        ensures
            r@ == eval_spec(views(a@), point@),
    {
        let ghost va = views(a@);
        let mut acc = FieldElement::zero();
        let mut i: usize = a.len();
        proof {
            assert(va.subrange(a@.len() as int, a@.len() as int) =~= Seq::<int>::empty());
        }
        while i > 0
            invariant
                i <= a.len(),
                va == views(a@),
                acc@ == eval_spec(va.subrange(i as int, a@.len() as int), point@),
            decreases i,
        {
            i = i - 1;
            let ghost acc0 = acc@;
            acc = a[i].add(point.mul(acc));
            proof {
                let suffix = va.subrange(i as int, a@.len() as int);
                assert(suffix[0] == va[i as int]);
                assert(suffix.subrange(1, suffix.len() as int) =~= va.subrange(
                    i + 1,
                    a@.len() as int,
                ));
                lemma_add_mod_noop_right(va[i as int], point@ * acc0, FIELD_PRIME as int);
            }
        }
        proof {
            assert(va.subrange(0, a@.len() as int) =~= va);
        }
        acc
    }

    /// The values of the polynomial over a whole domain, point by point.
    pub fn evaluate_domain(a: &Vec<FieldElement>, domain: &Vec<FieldElement>) -> (r: Vec<
        FieldElement,
    >)
        ensures
            r@.len() == domain@.len(),
            forall|i: int|
                0 <= i < domain@.len() ==> views(r@)[i] == eval_spec(
                    views(a@),
                    views(domain@)[i],
                ),
    {
        let mut result: Vec<FieldElement> = Vec::new();
        let mut i: usize = 0;
        while i < domain.len()
            invariant
                i <= domain.len(),
                result@.len() == i,
                forall|t: int|
                    0 <= t < i ==> result@[t]@ == eval_spec(views(a@), views(domain@)[t]),
            decreases domain.len() - i,
        {
            result.push(Self::evaluate(a, domain[i]));
            i = i + 1;
        }
        proof {
            assert forall|i: int| 0 <= i < domain@.len() implies views(result@)[i] == eval_spec(
                views(a@),
                views(domain@)[i],
            ) by {
                assert(views(result@)[i] == result@[i]@);
            }
        }
        result
    }

    /// Lagrange interpolation: the unique polynomial of degree below the
    /// domain size that takes the given value at every domain point. The
    /// domain points must be pairwise distinct.
    pub fn interpolate_domain(domain: &Vec<FieldElement>, values: &Vec<FieldElement>) -> (r: Vec<
        FieldElement,
    >)
        requires
            domain@.len() == values@.len(),
            domain@.len() > 0,
            domain@.len() + 2 <= usize::MAX,
            forall|i: int, j: int|
                0 <= i < j < domain@.len() ==> views(domain@)[i] != views(domain@)[j],
        ensures
            views(r@) == interpolate_spec(views(domain@), views(values@)),
    {
        let ghost d = views(domain@);
        let ghost v = views(values@);
        let n = domain.len();
        let mut x_poly: Vec<FieldElement> = Vec::new();
        x_poly.push(FieldElement::zero());
        x_poly.push(FieldElement::one());
        proof {
            assert(views(x_poly@) =~= seq![0int, 1int]);
        }
        let mut res: Vec<FieldElement> = Vec::new();
        let mut i: usize = 0;
        proof {
            assert(views(res@) =~= Seq::<int>::empty());
        }
        while i < n
            invariant
                i <= n,
                n == domain@.len(),
                domain@.len() == values@.len(),
                domain@.len() + 2 <= usize::MAX,
                d == views(domain@),
                v == views(values@),
                views(x_poly@) == seq![0int, 1int],
                x_poly@.len() == 2,
                forall|t1: int, t2: int| 0 <= t1 < t2 < domain@.len() ==> d[t1] != d[t2],
                views(res@) == lagrange_sum(d, v, i as nat),
                res@.len() <= n,
            decreases n - i,
        {
            let mut prod: Vec<FieldElement> = Vec::new();
            prod.push(values[i]);
            proof {
                assert(views(prod@) =~= seq![coeff(v, i as int)]);
            }
            let mut j: usize = 0;
            while j < n
                invariant
                    j <= n,
                    i < n,
                    n == domain@.len(),
                    domain@.len() == values@.len(),
                    domain@.len() + 2 <= usize::MAX,
                    d == views(domain@),
                    v == views(values@),
                    views(x_poly@) == seq![0int, 1int],
                    x_poly@.len() == 2,
                    forall|t1: int, t2: int| 0 <= t1 < t2 < domain@.len() ==> d[t1] != d[t2],
                    views(prod@) == lagrange_term(d, v, i as int, j as nat),
                    prod@.len() >= 1,
                    prod@.len() <= j + 1,
                    i < j ==> prod@.len() <= j,
                decreases n - j,
            {
                if j != i {
                    let di = domain[i];
                    let dj = domain[j];
                    proof {
                        use_type_invariant(di);
                        use_type_invariant(dj);
                        di.lemma_wf_bounds();
                        dj.lemma_wf_bounds();
                        if i < j {
                            assert(d[i as int] != d[j as int]);
                        } else {
                            assert(d[j as int] != d[i as int]);
                        }
                        crate::field::lemma_sub_nonzero(di@, dj@);
                    }
                    let diff = di.sub(dj);
                    let mut dvec: Vec<FieldElement> = Vec::new();
                    dvec.push(dj);
                    proof {
                        assert(views(dvec@) =~= seq![coeff(d, j as int)]);
                    }
                    let first = Self::sub(&x_poly, &dvec);
                    let mut second: Vec<FieldElement> = Vec::new();
                    second.push(diff.inverse());
                    proof {
                        assert(views(second@) =~= seq![
                            inverse_spec((coeff(d, i as int) - coeff(d, j as int)) % (
                            FIELD_PRIME as int)),
                        ]);
                    }
                    let inner = Self::mul(&first, &second);
                    prod = Self::mul(&prod, &inner);
                }
                j = j + 1;
            }
            res = Self::add(&res, &prod);
            i = i + 1;
        }
        res
    }

    /// The vanishing polynomial of the domain: the product of `(X - d)` over
    /// all domain points.
    pub fn zerofier_domain(domain: &Vec<FieldElement>) -> (r: Vec<FieldElement>)
        requires
            domain@.len() + 2 <= usize::MAX,
        ensures
            views(r@) == zerofier_spec(views(domain@), domain@.len()),
    {
        let ghost d = views(domain@);
        let mut x_poly: Vec<FieldElement> = Vec::new();
        x_poly.push(FieldElement::zero());
        x_poly.push(FieldElement::one());
        proof {
            assert(views(x_poly@) =~= seq![0int, 1int]);
        }
        let mut acc: Vec<FieldElement> = Vec::new();
        acc.push(FieldElement::one());
        proof {
            assert(views(acc@) =~= seq![1int]);
        }
        let mut i: usize = 0;
        while i < domain.len()
            invariant
                i <= domain.len(),
                d == views(domain@),
                domain@.len() + 2 <= usize::MAX,
                views(x_poly@) == seq![0int, 1int],
                x_poly@.len() == 2,
                views(acc@) == zerofier_spec(d, i as nat),
                acc@.len() == i + 1,
            decreases domain.len() - i,
        {
            let mut dvec: Vec<FieldElement> = Vec::new();
            dvec.push(domain[i]);
            proof {
                assert(views(dvec@) =~= seq![coeff(d, i as int)]);
            }
            let term = Self::sub(&x_poly, &dvec);
            acc = Self::mul(&acc, &term);
            i = i + 1;
        }
        acc
    }

    /// Substitutes `factor * X` for `X`: coefficient `i` is scaled by
    /// `factor^i`.
    pub fn scale(x: &Vec<FieldElement>, factor: FieldElement) -> (r: Vec<FieldElement>)
        requires
            x@.len() <= u128::MAX,
        ensures
            r@.len() == x@.len(),
            forall|i: int|
                0 <= i < x@.len() ==> views(r@)[i] == (powm(factor@, i as nat) * views(x@)[i]) % (
                FIELD_PRIME as int),
    {
        let mut result: Vec<FieldElement> = Vec::new();
        let mut i: usize = 0;
        while i < x.len()
            invariant
                i <= x.len(),
                x@.len() <= u128::MAX,
                result@.len() == i,
                forall|t: int|
                    0 <= t < i ==> result@[t]@ == (powm(factor@, t as nat) * views(x@)[t]) % (
                    FIELD_PRIME as int),
            decreases x.len() - i,
        {
            let xi = factor.pow(i as u128);
            result.push(xi.mul(x[i]));
            i = i + 1;
        }
        proof {
            assert forall|i: int| 0 <= i < x@.len() implies views(result@)[i] == (powm(
                factor@,
                i as nat,
            ) * views(x@)[i]) % (FIELD_PRIME as int) by {
                assert(views(result@)[i] == result@[i]@);
            }
        }
        result
    }

    /// Whether three points lie on one line: the interpolant through them has
    /// degree at most one. The three abscissas must be pairwise distinct.
    pub fn test_colinearity(domain: &Vec<FieldElement>, values: &Vec<FieldElement>) -> (r: bool)
        requires
            domain@.len() == 3,
            values@.len() == 3,
            forall|i: int, j: int|
                0 <= i < j < domain@.len() ==> views(domain@)[i] != views(domain@)[j],
        ensures
            r == (degree_of_spec(interpolate_spec(views(domain@), views(values@))) <= 1),
    {
        let poly = Self::interpolate_domain(domain, values);
        let d = Self::degree_of(&poly);
        d <= 1
    }
}

/// The convolution sum before reduction: the first `n` integer terms
/// `a_i * b_(k-i)`.
spec fn conv_int(a: Seq<int>, b: Seq<int>, k: int, n: nat) -> int
    decreases n,
{
    if n == 0 {
        0
    } else {
        conv_int(a, b, k, (n - 1) as nat) + coeff(a, n - 1) * coeff(b, k - (n - 1))
    }
}

/// The reduced convolution prefix is the integer convolution prefix, reduced.
proof fn lemma_conv_prefix_is_conv_int(a: Seq<int>, b: Seq<int>, k: int, n: nat)
    ensures
        conv_prefix(a, b, k, n) == conv_int(a, b, k, n) % (FIELD_PRIME as int),
    decreases n,
{
    let p = FIELD_PRIME as int;
    if n == 0 {
        lemma_small_mod(0nat, FIELD_PRIME as nat);
    } else {
        lemma_conv_prefix_is_conv_int(a, b, k, (n - 1) as nat);
        let s = conv_int(a, b, k, (n - 1) as nat);
        let t = coeff(a, n - 1) * coeff(b, k - (n - 1));
        lemma_add_mod_noop(s, t, p);
        lemma_add_mod_noop_right(s % p, t, p);
    }
}

/// Terms whose product is zero add nothing to the integer convolution.
proof fn lemma_conv_int_extend(a: Seq<int>, b: Seq<int>, k: int, n: nat, m: nat)
    requires
        n <= m,
        forall|i: int| n <= i < m ==> coeff(a, i) * coeff(b, k - i) == 0,
    ensures
        conv_int(a, b, k, m) == conv_int(a, b, k, n),
    decreases m,
{
    if m > n {
        lemma_conv_int_extend(a, b, k, n, (m - 1) as nat);
    }
}

/// The partial integer convolutions of a window, taken from opposite ends,
/// make up the whole.
proof fn lemma_conv_int_split(a: Seq<int>, b: Seq<int>, k: int, n: nat)
    requires
        k >= 0,
        n <= k + 1,
    ensures
        conv_int(a, b, k, n) + conv_int(b, a, k, (k + 1 - n) as nat) == conv_int(
            b,
            a,
            k,
            (k + 1) as nat,
        ),
    decreases n,
{
    if n > 0 {
        lemma_conv_int_split(a, b, k, (n - 1) as nat);
        assert(conv_int(b, a, k, (k + 2 - n) as nat) == conv_int(b, a, k, (k + 1 - n) as nat)
            + coeff(b, k + 1 - n) * coeff(a, k - (k + 1 - n)));
        assert(coeff(a, n - 1) * coeff(b, k - (n - 1)) == coeff(b, k + 1 - n) * coeff(
            a,
            k - (k + 1 - n),
        )) by (nonlinear_arith);
    }
}

/// The convolution does not care which factor comes first.
proof fn lemma_conv_symmetric(a: Seq<int>, b: Seq<int>, k: int)
    requires
        k >= 0,
    ensures
        conv(a, b, k) == conv(b, a, k),
{
    lemma_conv_prefix_is_conv_int(a, b, k, a.len());
    lemma_conv_prefix_is_conv_int(b, a, k, b.len());
    let w = (k + 1) as nat;
    // both full convolutions extend or shrink to the window `0..=k`
    if a.len() <= w {
        lemma_conv_int_extend(a, b, k, a.len(), w);
    } else {
        lemma_conv_int_extend(a, b, k, w, a.len());
    }
    if b.len() <= w {
        lemma_conv_int_extend(b, a, k, b.len(), w);
    } else {
        lemma_conv_int_extend(b, a, k, w, b.len());
    }
    lemma_conv_int_split(a, b, k, w);
}

/// Appending a coefficient to the left factor adds exactly its term to the
/// integer convolution.
proof fn lemma_conv_int_push(a: Seq<int>, b: Seq<int>, x: int, k: int, m: nat)
    ensures
        conv_int(a.push(x), b, k, m) == conv_int(a, b, k, m) + (if a.len() < m {
            x * coeff(b, k - a.len() as int)
        } else {
            0
        }),
    decreases m,
{
    if m > 0 {
        lemma_conv_int_push(a, b, x, k, (m - 1) as nat);
        if m - 1 == a.len() {
            assert(coeff(a.push(x), m - 1) == x);
            assert(coeff(a, m - 1) == 0);
        } else if m - 1 < a.len() {
            assert(coeff(a.push(x), m - 1) == coeff(a, m - 1));
        } else {
            assert(coeff(a.push(x), m - 1) == 0);
            assert(coeff(a, m - 1) == 0);
        }
    }
}

/// The partial sum `sum_i b_(i-p) * c_(n-i)`, over `i` below `m`.
spec fn shifted_sum(b: Seq<int>, c: Seq<int>, n: int, p: int, m: nat) -> int
    decreases m,
{
    if m == 0 {
        0
    } else {
        shifted_sum(b, c, n, p, (m - 1) as nat) + coeff(b, (m - 1) - p) * coeff(c, n - (m - 1))
    }
}

/// The shifted sum vanishes while the shift swallows every index.
proof fn lemma_shifted_zero(b: Seq<int>, c: Seq<int>, n: int, p: int, m: nat)
    requires
        m <= p,
    ensures
        shifted_sum(b, c, n, p, m) == 0,
    decreases m,
{
    if m > 0 {
        lemma_shifted_zero(b, c, n, p, (m - 1) as nat);
        assert(coeff(b, (m - 1) - p) == 0);
    }
}

/// Past the shift, the shifted sum is the window convolution at the shifted
/// target degree.
proof fn lemma_shifted_eq_conv(b: Seq<int>, c: Seq<int>, n: int, p: int, m: nat)
    requires
        0 <= p <= m,
    ensures
        shifted_sum(b, c, n, p, m) == conv_int(b, c, n - p, (m - p) as nat),
    decreases m,
{
    if m == p {
        lemma_shifted_zero(b, c, n, p, m);
    } else {
        lemma_shifted_eq_conv(b, c, n, p, (m - 1) as nat);
    }
}

/// The exact integer coefficients of a product, over a window.
spec fn window_entries(a: Seq<int>, b: Seq<int>, m: nat) -> Seq<int> {
    Seq::new(m, |i: int| conv_int(a, b, i, (i + 1) as nat))
}

/// Appending a coefficient to `a` shifts the outer triple sum by that
/// coefficient's shifted inner sum.
proof fn lemma_outer_push(a: Seq<int>, b: Seq<int>, c: Seq<int>, x: int, n: int, m: nat)
    requires
        n >= 0,
        m <= n + 1,
    ensures
        conv_int(window_entries(a.push(x), b, (n + 1) as nat), c, n, m) == conv_int(
            window_entries(a, b, (n + 1) as nat),
            c,
            n,
            m,
        ) + x * shifted_sum(b, c, n, a.len() as int, m),
    decreases m,
{
    if m == 0 {
        assert(x * 0 == 0) by (nonlinear_arith);
    } else {
        lemma_outer_push(a, b, c, x, n, (m - 1) as nat);
        let i = m - 1;
        lemma_conv_int_push(a, b, x, i, (i + 1) as nat);
        let old_entry = coeff(window_entries(a, b, (n + 1) as nat), i);
        let new_entry = coeff(window_entries(a.push(x), b, (n + 1) as nat), i);
        let delta = if a.len() < i + 1 {
            x * coeff(b, i - a.len() as int)
        } else {
            0
        };
        assert(new_entry == old_entry + delta);
        assert((old_entry + delta) * coeff(c, n - i) == old_entry * coeff(c, n - i) + delta
            * coeff(c, n - i)) by (nonlinear_arith);
        let s_m = shifted_sum(b, c, n, a.len() as int, m);
        let s_m1 = shifted_sum(b, c, n, a.len() as int, (m - 1) as nat);
        let t = coeff(b, (m - 1) - a.len() as int) * coeff(c, n - (m - 1));
        assert(s_m == s_m1 + t);
        assert(x * s_m == x * s_m1 + x * t) by (nonlinear_arith)
            requires
                s_m == s_m1 + t,
        ;
        if a.len() < i + 1 {
            assert((x * coeff(b, i - a.len() as int)) * coeff(c, n - i) == x * (coeff(
                b,
                i - a.len() as int,
            ) * coeff(c, n - i))) by (nonlinear_arith);
        } else {
            assert(coeff(b, (m - 1) - a.len() as int) == 0);
            assert(t == 0) by (nonlinear_arith)
                requires
                    coeff(b, (m - 1) - a.len() as int) == 0,
                    t == coeff(b, (m - 1) - a.len() as int) * coeff(c, n - (m - 1)),
            ;
            assert(0 * coeff(c, n - i) == 0) by (nonlinear_arith);
            assert(x * t == 0) by (nonlinear_arith)
                requires
                    t == 0,
            ;
        }
    }
}

/// The triple sum reads the same grouped either way: summing the exact
/// product of `a` and `b` against `c` equals summing `a` against the exact
/// product of `b` and `c`.
proof fn lemma_tri_exchange(a: Seq<int>, b: Seq<int>, c: Seq<int>, n: int)
    requires
        n >= 0,
    ensures
        conv_int(window_entries(a, b, (n + 1) as nat), c, n, (n + 1) as nat) == conv_int(
            a,
            window_entries(b, c, (n + 1) as nat),
            n,
            (n + 1) as nat,
        ),
    decreases a.len(),
{
    let w = (n + 1) as nat;
    if a.len() == 0 {
        assert forall|i: int| 0 <= i < w implies coeff(window_entries(a, b, w), i) * coeff(
            c,
            n - i,
        ) == 0 by {
            assert forall|j: int| 0 <= j < i + 1 implies coeff(a, j) * coeff(b, i - j) == 0 by {
                assert(coeff(a, j) == 0);
            }
            lemma_conv_int_extend(a, b, i, 0, (i + 1) as nat);
            assert(coeff(window_entries(a, b, w), i) == 0);
        }
        lemma_conv_int_extend(window_entries(a, b, w), c, n, 0, w);
        assert forall|j: int| 0 <= j < w implies coeff(a, j) * coeff(
            window_entries(b, c, w),
            n - j,
        ) == 0 by {
            assert(coeff(a, j) == 0);
        }
        lemma_conv_int_extend(a, window_entries(b, c, w), n, 0, w);
    } else {
        let a0 = a.drop_last();
        let x = a.last();
        assert(a =~= a0.push(x));
        lemma_tri_exchange(a0, b, c, n);
        let p = a0.len() as int;
        lemma_outer_push(a0, b, c, x, n, w);
        lemma_conv_int_push(a0, window_entries(b, c, w), x, n, w);
        if p < n + 1 {
            lemma_shifted_eq_conv(b, c, n, p, w);
            assert(coeff(window_entries(b, c, w), n - p) == conv_int(
                b,
                c,
                n - p,
                (n - p + 1) as nat,
            ));
        } else {
            lemma_shifted_zero(b, c, n, p, w);
            assert(x * 0 == 0) by (nonlinear_arith);
        }
    }
}

/// Unreduced convolutions of coefficient-wise congruent polynomials are
/// congruent, in the left factor.
proof fn lemma_conv_int_congr_left(x1: Seq<int>, x2: Seq<int>, c: Seq<int>, k: int, m: nat)
    requires
        forall|i: int| 0 <= i < m ==> #[trigger] coeff(x1, i) % (FIELD_PRIME as int) == coeff(
            x2,
            i,
        ) % (FIELD_PRIME as int),
    ensures
        conv_int(x1, c, k, m) % (FIELD_PRIME as int) == conv_int(x2, c, k, m) % (
        FIELD_PRIME as int),
    decreases m,
{
    let p = FIELD_PRIME as int;
    if m > 0 {
        lemma_conv_int_congr_left(x1, x2, c, k, (m - 1) as nat);
        let i = m - 1;
        lemma_mul_mod_noop_left(coeff(x1, i), coeff(c, k - i), p);
        lemma_mul_mod_noop_left(coeff(x2, i), coeff(c, k - i), p);
        assert((coeff(x1, i) * coeff(c, k - i)) % p == (coeff(x2, i) * coeff(c, k - i)) % p);
        lemma_add_mod_noop(conv_int(x1, c, k, (m - 1) as nat), coeff(x1, i) * coeff(c, k - i), p);
        lemma_add_mod_noop(conv_int(x2, c, k, (m - 1) as nat), coeff(x2, i) * coeff(c, k - i), p);
    }
}

/// Unreduced convolutions of coefficient-wise congruent polynomials are
/// congruent, in the right factor.
proof fn lemma_conv_int_congr_right(a: Seq<int>, y1: Seq<int>, y2: Seq<int>, k: int, m: nat)
    requires
        k >= 0,
        m <= k + 1,
        forall|j: int| 0 <= j <= k ==> #[trigger] coeff(y1, j) % (FIELD_PRIME as int) == coeff(
            y2,
            j,
        ) % (FIELD_PRIME as int),
    ensures
        conv_int(a, y1, k, m) % (FIELD_PRIME as int) == conv_int(a, y2, k, m) % (
        FIELD_PRIME as int),
    decreases m,
{
    let p = FIELD_PRIME as int;
    if m > 0 {
        lemma_conv_int_congr_right(a, y1, y2, k, (m - 1) as nat);
        let i = m - 1;
        lemma_mul_mod_noop_right(coeff(a, i), coeff(y1, k - i), p);
        lemma_mul_mod_noop_right(coeff(a, i), coeff(y2, k - i), p);
        assert((coeff(a, i) * coeff(y1, k - i)) % p == (coeff(a, i) * coeff(y2, k - i)) % p);
        lemma_add_mod_noop(conv_int(a, y1, k, (m - 1) as nat), coeff(a, i) * coeff(y1, k - i), p);
        lemma_add_mod_noop(conv_int(a, y2, k, (m - 1) as nat), coeff(a, i) * coeff(y2, k - i), p);
    }
}

/// The reduced product's coefficients are congruent to the exact window
/// coefficients.
proof fn lemma_pmul_congr_window(a: Seq<int>, b: Seq<int>, w: nat, i: int)
    requires
        a.len() > 0,
        b.len() > 0,
        0 <= i < w,
    ensures
        coeff(pmul(a, b), i) % (FIELD_PRIME as int) == coeff(window_entries(a, b, w), i) % (
        FIELD_PRIME as int),
{
    let p = FIELD_PRIME as int;
    {
        // the window entry is the integer convolution over `0..=i`
        if i < pmul(a, b).len() {
            // the reduced entry: the convolution prefix over `a`
            lemma_conv_prefix_is_conv_int(a, b, i, a.len());
            if a.len() <= i + 1 {
                lemma_conv_int_extend(a, b, i, a.len(), (i + 1) as nat);
            } else {
                lemma_conv_int_extend(a, b, i, (i + 1) as nat, a.len());
            }
            lemma_mod_twice(conv_int(a, b, i, (i + 1) as nat), p);
        } else {
            // beyond the product's length every window term is zero
            assert(i >= a.len() + b.len() - 1);
            assert forall|j: int| 0 <= j < i + 1 implies coeff(a, j) * coeff(b, i - j) == 0 by {
                if j < a.len() {
                    assert(coeff(b, i - j) == 0);
                } else {
                    assert(coeff(a, j) == 0);
                }
            }
            lemma_conv_int_extend(a, b, i, 0, (i + 1) as nat);
            assert(coeff(window_entries(a, b, w), i) == 0);
        }
    }
}

/// Polynomial multiplication is associative: grouping the factors either
/// way yields the same product.
pub proof fn lemma_pmul_associative(a: Seq<int>, b: Seq<int>, c: Seq<int>)
    ensures
        pmul(pmul(a, b), c) == pmul(a, pmul(b, c)),
{
    let p = FIELD_PRIME as int;
    if a.len() == 0 || b.len() == 0 || c.len() == 0 {
        assert(pmul(pmul(a, b), c) =~= pmul(a, pmul(b, c)));
    } else {
        let ab = pmul(a, b);
        let bc = pmul(b, c);
        assert(pmul(ab, c).len() == pmul(a, bc).len());
        assert forall|k: int| 0 <= k < pmul(ab, c).len() implies conv(ab, c, k) == conv(
            a,
            bc,
            k,
        ) by {
            let w = (k + 1) as nat;
            // left side down to the exact window coefficients
            lemma_conv_prefix_is_conv_int(ab, c, k, ab.len());
            if ab.len() <= w {
                lemma_conv_int_extend(ab, c, k, ab.len(), w);
            } else {
                lemma_conv_int_extend(ab, c, k, w, ab.len());
            }
            assert forall|i: int| 0 <= i < w implies #[trigger] coeff(ab, i) % p == coeff(
                window_entries(a, b, w),
                i,
            ) % p by {
                lemma_pmul_congr_window(a, b, w, i);
            }
            lemma_conv_int_congr_left(ab, window_entries(a, b, w), c, k, w);
            // right side down to the exact window coefficients
            lemma_conv_prefix_is_conv_int(a, bc, k, a.len());
            if a.len() <= w {
                lemma_conv_int_extend(a, bc, k, a.len(), w);
            } else {
                lemma_conv_int_extend(a, bc, k, w, a.len());
            }
            assert forall|j: int| 0 <= j <= k implies #[trigger] coeff(bc, j) % p == coeff(
                window_entries(b, c, w),
                j,
            ) % p by {
                lemma_pmul_congr_window(b, c, w, j);
            }
            lemma_conv_int_congr_right(a, bc, window_entries(b, c, w), k, w);
            // the exchange of the exact sums
            lemma_tri_exchange(a, b, c, k);
        }
        assert(pmul(ab, c) =~= pmul(a, bc));
    }
}

/// Polynomial multiplication is commutative: the product's coefficients do
/// not depend on the order of the factors.
pub proof fn lemma_pmul_commutative(a: Seq<int>, b: Seq<int>)
    ensures
        pmul(a, b) == pmul(b, a),
{
    if a.len() == 0 || b.len() == 0 {
        assert(pmul(a, b) =~= pmul(b, a));
    } else {
        assert forall|k: int| 0 <= k < a.len() + b.len() - 1 implies conv(a, b, k) == conv(
            b,
            a,
            k,
        ) by {
            lemma_conv_symmetric(a, b, k);
        }
        assert(pmul(a, b) =~= pmul(b, a));
    }
}

/// Coefficients above the degree are zero.
proof fn lemma_coeff_above_degree(s: Seq<int>, j: int)
    requires
        j > degree_of_spec(s),
    ensures
        coeff(s, j) == 0,
    decreases s.len(),
{
    lemma_degree_of_spec_bounds(s);
    if s.len() == 0 {
    } else if s.last() != 0 {
    } else {
        if j == s.len() - 1 {
        } else if j < s.len() - 1 {
            lemma_coeff_above_degree(s.drop_last(), j);
            assert(s.drop_last()[j] == s[j]);
        }
    }
}

/// Changing one quotient coefficient shifts the integer convolution by that
/// coefficient's contribution.
proof fn lemma_conv_int_update(q: Seq<int>, b: Seq<int>, k: int, n: nat, s: int, c: int)
    requires
        0 <= s < q.len(),
    ensures
        conv_int(q.update(s, c), b, k, n) == conv_int(q, b, k, n) + (if s < n {
            (c - q[s]) * coeff(b, k - s)
        } else {
            0
        }),
    decreases n,
{
    if n > 0 {
        lemma_conv_int_update(q, b, k, (n - 1) as nat, s, c);
        if s == n - 1 {
            assert(coeff(q.update(s, c), s) == c);
            assert(c * coeff(b, k - s) - q[s] * coeff(b, k - s) == (c - q[s]) * coeff(b, k - s))
                by (nonlinear_arith);
        } else {
            assert(coeff(q.update(s, c), n - 1) == coeff(q, n - 1));
        }
    }
}

/// The identity the long division maintains, for one coefficient: adding a
/// multiple of the modulus to either summand changes nothing.
proof fn lemma_identity_step(va_k: int, cv: int, rem_k: int, t: int)
    requires
        va_k == (cv + rem_k) % (FIELD_PRIME as int),
    ensures
        va_k == ((cv + t) + ((rem_k - t % (FIELD_PRIME as int)) % (FIELD_PRIME as int))) % (
        FIELD_PRIME as int),
{
    let p = FIELD_PRIME as int;
    lemma_add_mod_noop_right(cv + t, rem_k - t % p, p);
    assert(((cv + t) + ((rem_k - t % p) % p)) % p == ((cv + t) + (rem_k - t % p)) % p);
    lemma_fundamental_div_mod(t, p);
    assert(t - t % p == p * (t / p));
    assert((cv + t) + (rem_k - t % p) == p * (t / p) + (cv + rem_k));
    lemma_mod_multiples_vanish(t / p, cv + rem_k, p);
}

/// A polynomial that is not all zero has a non-zero coefficient exactly at
/// its degree.
proof fn lemma_degree_of_spec_nonzero(s: Seq<int>)
    requires
        !is_zero_spec(s),
    ensures
        0 <= degree_of_spec(s) < s.len(),
        s[degree_of_spec(s)] != 0,
    decreases s.len(),
{
    assert(s.len() > 0);
    if s.last() != 0 {
    } else {
        let k = choose|k: int| 0 <= k < s.len() && s[k] != 0;
        assert(k < s.len() - 1);
        assert(!is_zero_spec(s.drop_last())) by {
            assert(s.drop_last()[k] != 0);
        }
        lemma_degree_of_spec_nonzero(s.drop_last());
        assert(s[degree_of_spec(s.drop_last())] == s.drop_last()[degree_of_spec(s.drop_last())]);
    }
}

/// The highest non-zero index never leaves the vector.
pub proof fn lemma_degree_of_spec_bounds(s: Seq<int>)
    ensures
        0 <= degree_of_spec(s),
        s.len() == 0 ==> degree_of_spec(s) == 0,
        s.len() > 0 ==> degree_of_spec(s) < s.len(),
    decreases s.len(),
{
    if s.len() == 0 {
    } else if s.last() != 0 {
    } else {
        lemma_degree_of_spec_bounds(s.drop_last());
    }
}

} // verus!
