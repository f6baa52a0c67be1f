use vstd::prelude::*;
use vstd::arithmetic::div_mod::*;
use vstd::arithmetic::mul::*;
use vstd::arithmetic::power::*;
use vstd::arithmetic::power2::*;
use crate::field::FieldElement;
use crate::field::FIELD_PRIME;
use crate::field::powm;
use crate::field::inverse_spec;
use crate::field::views;
use crate::field::le_bytes;
use crate::field::le_val;
use crate::field::chunk;
use crate::field::ser_elements;
use crate::field::sample_spec;
use crate::field::append_bytes;
use crate::polynomial::degree_of_spec;
use crate::merkle_tree::Merkle;
use crate::merkle_tree::blake2s_of;
use crate::merkle_tree::blake2s_digest;
use crate::merkle_tree::byte_views;
use crate::merkle_tree::merkle_root_spec;
use crate::merkle_tree::merkle_open_spec;
use crate::merkle_tree::path_fold;
use crate::proof_stream::ProofStream;
use crate::proof_stream::u64_le_bytes;
use crate::proof_stream::sha3_of;
use crate::proof_stream::ser_objects;

verus! {

/// How many fold rounds a codeword of the given length supports: the length
/// is halved while it exceeds the expansion factor and still leaves room for
/// four times the requested number of colinearity tests.
pub open spec fn num_rounds_spec(length: int, expansion: int, tests: int) -> int
    decreases length,
{
    if length >= 2 && length > expansion && 4 * tests < length {
        1 + num_rounds_spec(length / 2, expansion, tests)
    } else {
        0
    }
}

/// One folded value: `½ ((1 + α/x) a + (1 − α/x) b)` in the field, where `x`
/// is the domain point under `a` and `1/x` is the Fermat power.
pub open spec fn fold_elem_spec(a: int, b: int, alpha: int, x: int) -> int {
    let p = FIELD_PRIME as int;
    let axi = (alpha * inverse_spec(x)) % p;
    let l = (((1 + axi) % p) * a) % p;
    let r = (((1 - axi) % p) * b) % p;
    (inverse_spec(2) * ((l + r) % p)) % p
}

/// The folded codeword: element `i` combines the evaluation at domain point
/// `offset·ω^i` with its negated twin at `i + len/2`, producing evaluations
/// of the half-degree polynomial on the squared domain.
pub open spec fn fold_codeword_spec(cw: Seq<int>, alpha: int, offset: int, omega: int) -> Seq<
    int,
> {
    Seq::new(
        (cw.len() / 2) as nat,
        |i: int|
            fold_elem_spec(
                cw[i],
                cw[cw.len() as int / 2 + i],
                alpha,
                (offset * powm(omega, i as nat)) % (FIELD_PRIME as int),
            ),
    )
}

/// The Merkle leaf under each codeword element: the digest of its 16-byte
/// serialization.
pub open spec fn leaf_digests_spec(cw: Seq<int>) -> Seq<Seq<u8>> {
    Seq::new(cw.len(), |i: int| blake2s_of(le_bytes(cw[i])))
}

/// The codewords a list of codeword vectors holds, as residue sequences.
pub open spec fn codeword_views(s: Seq<Vec<FieldElement>>) -> Seq<Seq<int>> {
    Seq::new(s.len(), |i: int| views(s[i]@))
}

/// The Merkle root of each codeword in a list.
pub open spec fn commit_roots(cws: Seq<Seq<int>>) -> Seq<Seq<u8>> {
    Seq::new(cws.len(), |r: int| merkle_root_spec(leaf_digests_spec(cws[r])))
}

/// The fold challenge derived from a transcript state: the hash of the
/// serialized object log, mapped into the field.
pub open spec fn challenge_of(objects: Seq<Seq<u8>>) -> int {
    sample_spec(sha3_of(ser_objects(objects)))
}

/// A byte string that denotes a whole number of field residues, each chunk a
/// canonical residue.
pub open spec fn parses_as_elements(b: Seq<u8>) -> bool {
    b.len() % 16 == 0 && forall|e: int|
        0 <= e < b.len() / 16 ==> le_val(#[trigger] chunk(b, e)) < (FIELD_PRIME as int)
}

/// The residues a serialized codeword denotes.
pub open spec fn parse_elements(b: Seq<u8>) -> Seq<int> {
    Seq::new((b.len() / 16) as nat, |e: int| le_val(chunk(b, e)))
}

/// A byte string split into 32-byte digests.
pub open spec fn chunks32(b: Seq<u8>) -> Seq<Seq<u8>> {
    Seq::new((b.len() / 32) as nat, |t: int| b.subrange(32 * t, 32 * t + 32))
}

/// Big-endian accumulation of a byte string into an index below `m`.
pub open spec fn index_acc(bytes: Seq<u8>, m: int) -> int
    decreases bytes.len(),
{
    if bytes.len() == 0 {
        0
    } else {
        (index_acc(bytes.drop_last(), m) * 256 + bytes.last()) % m
    }
}

/// The candidate index the counter-mode derivation yields at one counter
/// value: the digest of the seed followed by the counter's 8-byte encoding,
/// accumulated below `size`.
pub open spec fn index_candidate(seed: Seq<u8>, size: int, counter: int) -> int {
    index_acc(blake2s_of(seed + crate::proof_stream::len_bytes8(counter)), size)
}

/// The spot-check indices collected after the first `c` counter values:
/// each candidate is kept when the set is not yet full and its residue
/// modulo `reduced_size` is new.
pub open spec fn sampled_upto(
    seed: Seq<u8>,
    size: int,
    reduced_size: int,
    number: int,
    c: nat,
) -> Seq<usize>
    decreases c,
{
    if c == 0 {
        Seq::empty()
    } else {
        let prev = sampled_upto(seed, size, reduced_size, number, (c - 1) as nat);
        if prev.len() >= number {
            prev
        } else {
            let candidate = index_candidate(seed, size, c - 1);
            if exists|t: int|
                0 <= t < prev.len() && (prev[t] as int) % reduced_size == candidate
                    % reduced_size {
                prev
            } else {
                prev.push(candidate as usize)
            }
        }
    }
}

/// The deterministic completion of the index set: residue classes are
/// scanned in order, and each class still free is filled with its own class
/// index, until the set is full.
pub open spec fn filled_upto(base: Seq<usize>, reduced_size: int, number: int, cls: nat) -> Seq<
    usize,
>
    decreases cls,
{
    if cls == 0 {
        base
    } else {
        let prev = filled_upto(base, reduced_size, number, (cls - 1) as nat);
        if prev.len() >= number {
            prev
        } else if exists|t: int|
            0 <= t < prev.len() && (prev[t] as int) % reduced_size == cls - 1 {
            prev
        } else {
            prev.push((cls - 1) as usize)
        }
    }
}

/// The whole derived index set: the counter-mode search runs for 64
/// candidates per requested index, then any classes still free are filled
/// in scan order.
pub open spec fn sample_indices_spec(
    seed: Seq<u8>,
    size: int,
    reduced_size: int,
    number: int,
) -> Seq<usize> {
    filled_upto(
        sampled_upto(seed, size, reduced_size, number, (number * 64) as nat),
        reduced_size,
        number,
        (if size <= reduced_size {
            size
        } else {
            reduced_size
        }) as nat,
    )
}

/// Once the filled set is full it never changes again.
proof fn lemma_filled_upto_stable(base: Seq<usize>, m: int, number: int, c1: nat, c2: nat)
    requires
        c1 <= c2,
        filled_upto(base, m, number, c1).len() >= number,
    ensures
        filled_upto(base, m, number, c2) == filled_upto(base, m, number, c1),
    decreases c2,
{
    if c2 > c1 {
        lemma_filled_upto_stable(base, m, number, c1, (c2 - 1) as nat);
    }
}

/// How many entries fall in a residue class below `cls`.
spec fn class_count(idx: Seq<usize>, m: int, cls: int) -> int
    decreases idx.len(),
{
    if idx.len() == 0 {
        0
    } else {
        class_count(idx.drop_last(), m, cls) + (if (idx.last() as int) % m < cls {
            1int
        } else {
            0int
        })
    }
}

/// The class count never exceeds the number of entries, and never drops
/// when the class bound grows.
proof fn lemma_class_count_bounds(idx: Seq<usize>, m: int, c1: int, c2: int)
    requires
        c1 <= c2,
    ensures
        0 <= class_count(idx, m, c1) <= class_count(idx, m, c2) <= idx.len(),
    decreases idx.len(),
{
    if idx.len() > 0 {
        lemma_class_count_bounds(idx.drop_last(), m, c1, c2);
    }
}

/// An occupied class below the bound contributes one more entry to the
/// count than the classes before it alone.
proof fn lemma_class_count_occupied(idx: Seq<usize>, m: int, c: int, t: int)
    requires
        0 <= t < idx.len(),
        (idx[t] as int) % m == c,
    ensures
        class_count(idx, m, c + 1) >= class_count(idx, m, c) + 1,
    decreases idx.len(),
{
    if t == idx.len() - 1 {
        lemma_class_count_bounds(idx.drop_last(), m, c, c + 1);
    } else {
        lemma_class_count_occupied(idx.drop_last(), m, c, t);
        assert(idx.drop_last()[t] == idx[t]);
    }
}

/// Once the index set is full it never changes again.
proof fn lemma_sampled_upto_stable(
    seed: Seq<u8>,
    size: int,
    reduced_size: int,
    number: int,
    c1: nat,
    c2: nat,
)
    requires
        c1 <= c2,
        sampled_upto(seed, size, reduced_size, number, c1).len() >= number,
    ensures
        sampled_upto(seed, size, reduced_size, number, c2) == sampled_upto(
            seed,
            size,
            reduced_size,
            number,
            c1,
        ),
    decreases c2,
{
    if c2 > c1 {
        lemma_sampled_upto_stable(seed, size, reduced_size, number, c1, (c2 - 1) as nat);
    }
}

/// The FRI protocol instance: the evaluation domain `{offset·ω^i}`, its
/// length, the expansion (blow-up) factor, and how many colinearity spot
/// checks the query phase makes.
pub struct Fri {
    pub offset: u128,
    pub omega: u128,
    pub domain_length: u128,
    pub expansion_factor: u128,
    pub num_colinearity_tests: u128,
}

/// The round-by-round codeword list as residue sequences: the codewords
/// appended so far, then the working codeword.
spec fn chain_of(cws: Seq<Vec<FieldElement>>, cur: Seq<int>) -> Seq<Seq<int>> {
    codeword_views(cws).push(cur)
}

/// The reduction of an index list modulo half a round's length.
pub open spec fn reduce_indices(idx: Seq<usize>, half: int) -> Seq<usize> {
    Seq::new(idx.len(), |s: int| ((idx[s] as int % half) as usize))
}

/// The index list the query phase uses at round boundary `i`: the top-level
/// indices reduced modulo half of every codeword length up to round `i`.
pub open spec fn indices_at(cvs: Seq<Seq<int>>, top: Seq<usize>, i: nat) -> Seq<usize>
    decreases i,
{
    if i == 0 {
        reduce_indices(top, cvs[0].len() as int / 2)
    } else {
        reduce_indices(indices_at(cvs, top, (i - 1) as nat), cvs[i as int].len() as int / 2)
    }
}

/// Every object the query phase pushes, over the first `b` round
/// boundaries, in order.
pub open spec fn query_phase_objects(cvs: Seq<Seq<int>>, top: Seq<usize>, b: nat) -> Seq<Seq<u8>>
    decreases b,
{
    if b == 0 {
        Seq::empty()
    } else {
        query_phase_objects(cvs, top, (b - 1) as nat) + query_objects_spec(
            cvs[b - 1],
            cvs[b as int],
            indices_at(cvs, top, (b - 1) as nat),
        )
    }
}

impl Fri {
    /// The number of fold rounds, as a function of the configuration.
    pub open spec fn rounds(self) -> int {
        num_rounds_spec(
            self.domain_length as int,
            self.expansion_factor as int,
            self.num_colinearity_tests as int,
        )
    }

    /// A consistent configuration: nonzero reduced domain parameters, a
    /// power-of-two domain length that fits a vector, and at least one
    /// colinearity test.
    pub open spec fn wf(self) -> bool {
        &&& 0 < self.offset < FIELD_PRIME
        &&& 0 < self.omega < FIELD_PRIME
        &&& exists|m: nat| self.domain_length == pow2(m)
        &&& self.domain_length <= usize::MAX as u128
        &&& self.expansion_factor >= 1
        &&& self.num_colinearity_tests >= 1
        &&& self.num_colinearity_tests <= u128::MAX / 4
    }

    /// Builds an instance from its configuration record.
    pub fn new(
        offset: u128,
        omega: u128,
        domain_length: u128,
        expansion_factor: u128,
        num_colinearity_tests: u128,
    ) -> (r: Self)
        requires
            0 < offset < FIELD_PRIME,
            0 < omega < FIELD_PRIME,
            exists|m: nat| domain_length == pow2(m),
            domain_length <= usize::MAX as u128,
            expansion_factor >= 1,
            num_colinearity_tests >= 1,
            num_colinearity_tests <= u128::MAX / 4,
        ensures
            r.wf(),
            r.offset == offset,
            r.omega == omega,
            r.domain_length == domain_length,
            r.expansion_factor == expansion_factor,
            r.num_colinearity_tests == num_colinearity_tests,
    {
        Fri { offset, omega, domain_length, expansion_factor, num_colinearity_tests }
    }

    /// The number of fold rounds this configuration performs.
    pub fn num_rounds(&self) -> (r: u128)
        requires
            self.wf(),
        ensures
            r as int == num_rounds_spec(
                self.domain_length as int,
                self.expansion_factor as int,
                self.num_colinearity_tests as int,
            ),
    {
        let mut codeword_length = self.domain_length;
        let mut num_rounds: u128 = 0;
        proof {
            lemma2_to64();
            let m = choose|m: nat| self.domain_length == pow2(m);
            lemma_pow2_pos(m);
        }
        while codeword_length > self.expansion_factor && 4 * self.num_colinearity_tests
            < codeword_length
            invariant
                self.wf(),
                codeword_length >= 1,
                num_rounds as int <= 128,
                codeword_length as int * pow2(num_rounds as nat) <= self.domain_length as int,
                num_rounds_spec(
                    self.domain_length as int,
                    self.expansion_factor as int,
                    self.num_colinearity_tests as int,
                ) == num_rounds + num_rounds_spec(
                    codeword_length as int,
                    self.expansion_factor as int,
                    self.num_colinearity_tests as int,
                ),
            decreases codeword_length,
        {
            proof {
                let cl = codeword_length as int;
                let nr = num_rounds as nat;
                lemma_pow2_pos(nr);
                lemma_pow2_unfold((nr + 1) as nat);
                assert((cl / 2) * (2 * pow2(nr)) <= cl * pow2(nr)) by (nonlinear_arith)
                    requires
                        cl >= 2,
                        pow2(nr) >= 1,
                ;
                lemma_pow2_pos(nr);
                if num_rounds >= 128 {
                    assert(cl * pow2(nr) >= pow2(nr)) by (nonlinear_arith)
                        requires
                            cl >= 1,
                            pow2(nr) >= 1,
                    ;
                    lemma_pow2_adds(64, 64);
                    lemma2_to64_rest();
                    lemma_pow2_strictly_increases(128, nr as nat);
                    if nr > 128 {
                    }
                    assert(pow2(nr) >= pow2(128));
                    assert(false);
                }
            }
            codeword_length = codeword_length / 2;
            num_rounds = num_rounds + 1;
        }
        num_rounds
    }

    /// The evaluation domain: the point `offset·ω^i` for each index.
    pub fn eval_domain(&self) -> (r: Vec<FieldElement>)
        requires
            self.wf(),
        ensures
            r@.len() == self.domain_length,
            forall|i: int|
                0 <= i < r@.len() ==> views(r@)[i] == (self.offset as int * powm(
                    self.omega as int,
                    i as nat,
                )) % (FIELD_PRIME as int),
    {
        let n = self.domain_length as usize;
        let offset_fe = FieldElement::new(self.offset);
        let omega_fe = FieldElement::new(self.omega);
        proof {
            lemma_small_mod(self.offset as nat, FIELD_PRIME as nat);
            lemma_small_mod(self.omega as nat, FIELD_PRIME as nat);
        }
        let mut result: Vec<FieldElement> = Vec::new();
        let mut i: usize = 0;
        while i < n
            invariant
                self.wf(),
                i <= n,
                n == self.domain_length,
                offset_fe@ == self.offset as int,
                omega_fe@ == self.omega as int,
                result@.len() == i,
                forall|t: int|
                    0 <= t < i ==> result@[t]@ == (self.offset as int * powm(
                        self.omega as int,
                        t as nat,
                    )) % (FIELD_PRIME as int),
            decreases n - i,
        {
            let x = offset_fe.mul(omega_fe.pow(i as u128));
            result.push(x);
            i = i + 1;
        }
        proof {
            assert forall|t: int| 0 <= t < result@.len() implies views(result@)[t] == (
            self.offset as int * powm(self.omega as int, t as nat)) % (FIELD_PRIME as int) by {
                assert(views(result@)[t] == result@[t]@);
            }
        }
        result
    }

    /// Folds a codeword in half under the challenge `alpha` over the domain
    /// `{offset·ω^i}`.
    pub fn fold_codeword(
        codeword: &Vec<FieldElement>,
        alpha: FieldElement,
        offset: FieldElement,
        omega: FieldElement,
    ) -> (r: Vec<FieldElement>)
        ensures
            r@.len() == codeword@.len() / 2,
            views(r@) == fold_codeword_spec(views(codeword@), alpha@, offset@, omega@),
    {
        let half = codeword.len() / 2;
        let two_inv = FieldElement::new(2).inverse();
        let one = FieldElement::one();
        let mut result: Vec<FieldElement> = Vec::new();
        let mut i: usize = 0;
        proof {
            lemma_small_mod(2nat, FIELD_PRIME as nat);
        }
        while i < half
            invariant
                i <= half,
                codeword@.len() <= usize::MAX,
                half == codeword@.len() / 2,
                two_inv@ == inverse_spec(2),
                one@ == 1,
                result@.len() == i,
                forall|t: int|
                    0 <= t < i ==> result@[t]@ == fold_elem_spec(
                        views(codeword@)[t],
                        views(codeword@)[codeword@.len() as int / 2 + t],
                        alpha@,
                        (offset@ * powm(omega@, t as nat)) % (FIELD_PRIME as int),
                    ),
            decreases half - i,
        {
            let x = offset.mul(omega.pow(i as u128));
            let xinv = x.pow(FIELD_PRIME - 2);
            let axi = alpha.mul(xinv);
            let left = one.add(axi).mul(codeword[i]);
            let right = one.sub(axi).mul(codeword[half + i]);
            let folded = two_inv.mul(left.add(right));
            result.push(folded);
            proof {
                assert(codeword@.len() as int / 2 + i < codeword@.len());
            }
            i = i + 1;
        }
        proof {
            assert(views(result@) =~= fold_codeword_spec(
                views(codeword@),
                alpha@,
                offset@,
                omega@,
            ));
        }
        result
    }

    /// The Merkle leaves of a codeword: the digest of each element's 16-byte
    /// serialization.
    pub fn codeword_leaves(codeword: &Vec<FieldElement>) -> (r: Vec<Vec<u8>>)
        ensures
            r@.len() == codeword@.len(),
            byte_views(r@) == leaf_digests_spec(views(codeword@)),
            forall|t: int| 0 <= t < r@.len() ==> (#[trigger] r@[t])@.len() == 32,
    {
        let mut result: Vec<Vec<u8>> = Vec::new();
        let mut i: usize = 0;
        while i < codeword.len()
            invariant
                i <= codeword@.len(),
                result@.len() == i,
                forall|t: int|
                    0 <= t < i ==> (#[trigger] result@[t])@ == blake2s_of(
                        le_bytes(views(codeword@)[t]),
                    ),
                forall|t: int| 0 <= t < i ==> (#[trigger] result@[t])@.len() == 32,
            decreases codeword@.len() - i,
        {
            let bytes = codeword[i].to_bytes();
            let digest = blake2s_digest(&bytes);
            result.push(digest);
            i = i + 1;
        }
        proof {
            assert(byte_views(result@) =~= leaf_digests_spec(views(codeword@)));
        }
        result
    }

    /// What the commit phase establishes of its round codewords: the input
    /// codeword first, one codeword per round with halving lengths, and each
    /// next codeword the fold of the previous under the challenge that the
    /// transcript yields right after that round's root.
    pub open spec fn commit_post(
        self,
        cw0: Seq<int>,
        base: Seq<Seq<u8>>,
        cvs: Seq<Seq<int>>,
    ) -> bool {
        &&& cvs.len() == (if self.rounds() == 0 {
            1int
        } else {
            self.rounds()
        })
        &&& cvs[0] == cw0
        &&& forall|t: int|
            0 <= t < cvs.len() ==> (#[trigger] cvs[t]).len() == self.domain_length as int / (pow2(
                t as nat,
            ) as int)
        &&& forall|t: int|
            0 <= t < cvs.len() - 1 ==> #[trigger] cvs[t + 1] == fold_codeword_spec(
                cvs[t],
                challenge_of(base + commit_roots(cvs).take(t + 1)),
                powm(self.offset as int, pow2(t as nat)),
                powm(self.omega as int, pow2(t as nat)),
            )
    }

    /// The objects the commit phase pushes: one Merkle root per round, then
    /// the final codeword, serialized, in the clear.
    pub open spec fn commit_objects(self, cvs: Seq<Seq<int>>) -> Seq<Seq<u8>> {
        commit_roots(cvs).take(self.rounds()) + seq![ser_elements(cvs.last())]
    }

    /// The commit phase: one fold round after another, each committing to
    /// the working codeword with a Merkle root pushed to the transcript and
    /// folding it under the challenge the transcript then yields; the last
    /// round pushes the codeword itself in the clear. Returns every round's
    /// codeword, the input first.
    pub fn commit(&self, codeword: Vec<FieldElement>, proof_stream: &mut ProofStream) -> (r: Vec<
        Vec<FieldElement>,
    >)
        requires
            self.wf(),
            codeword@.len() == self.domain_length,
        ensures
            self.commit_post(views(codeword@), old(proof_stream).objects_view(), codeword_views(r@)),
            final(proof_stream).objects_view() == old(proof_stream).objects_view()
                + self.commit_objects(codeword_views(r@)),
            final(proof_stream).read_index_view() == old(proof_stream).read_index_view(),
    {
        let ghost base = old(proof_stream).objects_view();
        let ghost read0 = old(proof_stream).read_index_view();
        let ghost cw0 = views(codeword@);
        let ghost ef = self.expansion_factor as int;
        let ghost nct = self.num_colinearity_tests as int;
        let n_rounds = self.num_rounds();
        let mut codewords: Vec<Vec<FieldElement>> = Vec::new();
        let mut current = codeword;
        let mut omega_c = FieldElement::new(self.omega);
        let mut offset_c = FieldElement::new(self.offset);
        let mut r: u128 = 0;
        proof {
            lemma2_to64();
            lemma_small_mod(self.omega as nat, FIELD_PRIME as nat);
            lemma_small_mod(self.offset as nat, FIELD_PRIME as nat);
            lemma_pow1(self.omega as int);
            lemma_pow1(self.offset as int);
            lemma_div_basics(self.domain_length as int);
        }
        while r + 1 < n_rounds
            invariant
                self.wf(),
                n_rounds as int == self.rounds(),
                r <= n_rounds,
                r < n_rounds || (n_rounds == 0 && r == 0),
                codewords@.len() == r,
                num_rounds_spec(current@.len() as int, ef, nct) == n_rounds - r,
                ef == self.expansion_factor as int,
                nct == self.num_colinearity_tests as int,
                current@.len() as int == self.domain_length as int / (pow2(r as nat) as int),
                current@.len() <= usize::MAX,
                exists|m: nat| current@.len() == pow2(m),
                omega_c@ == powm(self.omega as int, pow2(r as nat)),
                offset_c@ == powm(self.offset as int, pow2(r as nat)),
                chain_of(codewords@, views(current@))[0] == cw0,
                forall|t: int|
                    0 <= t < r ==> (#[trigger] codeword_views(codewords@)[t]).len()
                        == self.domain_length as int / (pow2(t as nat) as int),
                forall|t: int|
                    0 <= t < r ==> #[trigger] chain_of(codewords@, views(current@))[t + 1]
                        == fold_codeword_spec(
                        chain_of(codewords@, views(current@))[t],
                        challenge_of(
                            base + commit_roots(codeword_views(codewords@)).take(t + 1),
                        ),
                        powm(self.offset as int, pow2(t as nat)),
                        powm(self.omega as int, pow2(t as nat)),
                    ),
                proof_stream.objects_view() == base + commit_roots(codeword_views(codewords@)),
                proof_stream.read_index_view() == read0,
            decreases n_rounds - r,
        {
            let ghost cvs0 = codeword_views(codewords@);
            let ghost cur0 = views(current@);
            let ghost objs0 = proof_stream.objects_view();
            let leaves = Self::codeword_leaves(&current);
            proof {
                assert(current@.len() >= 1) by {
                    if current@.len() == 0 {
                        assert(num_rounds_spec(0, ef, nct) == 0);
                    }
                }
            }
            let root = Merkle::commit_(&leaves);
            proof_stream.push(root);
            let challenge = proof_stream.prover_fiat_shamir();
            let alpha = FieldElement::sample(&challenge);
            proof {
                assert(commit_roots(cvs0).push(merkle_root_spec(leaf_digests_spec(cur0)))
                    =~= commit_roots(cvs0.push(cur0)));
                assert(proof_stream.objects_view() =~= base + commit_roots(cvs0.push(cur0)));
            }
            let next = Self::fold_codeword(&current, alpha, offset_c, omega_c);
            proof {
                // the working codeword still folds: its round count is at least two
                assert(num_rounds_spec(current@.len() as int, ef, nct) >= 2);
                assert(current@.len() >= 2);
                lemma2_to64();
                let m = choose|m: nat| current@.len() == pow2(m);
                if m == 0 {
                    assert(false);
                }
                lemma_pow2_unfold(m);
                assert(current@.len() as int / 2 == pow2((m - 1) as nat));
            }
            let ghost codewords0 = codewords@;
            codewords.push(current);
            current = next;
            proof {
                assert(codeword_views(codewords@) =~= cvs0.push(cur0));
                assert(codewords0 == codewords@.take(codewords@.len() as int - 1));
            }
            let ghost rr = r as nat;
            omega_c = omega_c.mul(omega_c);
            offset_c = offset_c.mul(offset_c);
            r = r + 1;
            proof {
                let p = FIELD_PRIME as int;
                lemma_pow2_unfold((rr + 1) as nat);
                lemma_mul_mod_noop_general(
                    pow(self.omega as int, pow2(rr)),
                    pow(self.omega as int, pow2(rr)),
                    p,
                );
                lemma_pow_adds(self.omega as int, pow2(rr), pow2(rr));
                lemma_mul_mod_noop_general(
                    pow(self.offset as int, pow2(rr)),
                    pow(self.offset as int, pow2(rr)),
                    p,
                );
                lemma_pow_adds(self.offset as int, pow2(rr), pow2(rr));
                // the new working length
                lemma_pow2_pos(rr);
                lemma_div_denominator(self.domain_length as int, pow2(rr) as int, 2);
                // the chain and the fold relation carry over
                let cvs1 = codeword_views(codewords@);
                let chain0 = chain_of(codewords0, cur0);
                let chain1 = chain_of(codewords@, views(current@));
                assert(chain0 =~= cvs0.push(cur0));
                assert(chain1 =~= cvs0.push(cur0).push(views(current@)));
                assert forall|t: int| 0 <= t < r implies #[trigger] chain1[t + 1]
                    == fold_codeword_spec(
                    chain1[t],
                    challenge_of(base + commit_roots(cvs1).take(t + 1)),
                    powm(self.offset as int, pow2(t as nat)),
                    powm(self.omega as int, pow2(t as nat)),
                ) by {
                    if t + 1 < r {
                        assert(commit_roots(cvs1).take(t + 1) =~= commit_roots(cvs0).take(t + 1));
                        assert(chain1[t] == chain0[t]);
                        assert(chain1[t + 1] == chain0[t + 1]);
                        assert(chain0[t + 1] == fold_codeword_spec(
                            chain0[t],
                            challenge_of(base + commit_roots(cvs0).take(t + 1)),
                            powm(self.offset as int, pow2(t as nat)),
                            powm(self.omega as int, pow2(t as nat)),
                        ));
                    } else {
                        assert(t + 1 == r);
                        assert(chain1[t] == cur0);
                        assert(chain1[t + 1] == views(current@));
                        assert(commit_roots(cvs1).take(r as int) =~= commit_roots(cvs1));
                        assert(challenge_of(base + commit_roots(cvs1)) == alpha@);
                    }
                }
            }
        }
        proof {
            assert(current@.len() >= 1) by {
                lemma_pow2_pos(choose|m: nat| current@.len() == pow2(m));
            }
        }
        let ghost cvs0 = codeword_views(codewords@);
        let ghost cur0 = views(current@);
        let ghost target = cvs0.push(cur0);
        proof {
            let chain0 = chain_of(codewords@, views(current@));
            assert(chain0 =~= target);
            assert forall|t: int| 0 <= t < target.len() - 1 implies #[trigger] target[t + 1]
                == fold_codeword_spec(
                target[t],
                challenge_of(base + commit_roots(target).take(t + 1)),
                powm(self.offset as int, pow2(t as nat)),
                powm(self.omega as int, pow2(t as nat)),
            ) by {
                assert(commit_roots(target).take(t + 1) =~= commit_roots(cvs0).take(t + 1));
                assert(chain0[t + 1] == fold_codeword_spec(
                    chain0[t],
                    challenge_of(base + commit_roots(cvs0).take(t + 1)),
                    powm(self.offset as int, pow2(t as nat)),
                    powm(self.omega as int, pow2(t as nat)),
                ));
            }
            assert forall|t: int| 0 <= t < target.len() implies (#[trigger] target[t]).len()
                == self.domain_length as int / (pow2(t as nat) as int) by {
                if t < target.len() - 1 {
                    assert(codeword_views(codewords@)[t].len() == self.domain_length as int / (
                    pow2(t as nat) as int));
                }
            }
        }
        if n_rounds > 0 {
            let leaves = Self::codeword_leaves(&current);
            let root = Merkle::commit_(&leaves);
            proof_stream.push(root);
        }
        let ser = FieldElement::elements_as_bytes(&current);
        proof_stream.push(ser);
        codewords.push(current);
        proof {
            let cvs1 = codeword_views(codewords@);
            assert(cvs1 =~= target);
            if n_rounds > 0 {
                assert(commit_roots(cvs1) =~= commit_roots(cvs0).push(
                    merkle_root_spec(leaf_digests_spec(cur0)),
                ));
                assert(commit_roots(cvs1).take(self.rounds()) =~= commit_roots(cvs1));
                assert(proof_stream.objects_view() =~= base + commit_roots(cvs1).take(
                    self.rounds(),
                ) + seq![ser_elements(cvs1.last())]);
            } else {
                assert(commit_roots(cvs1).take(0) =~= Seq::<Seq<u8>>::empty());
                assert(proof_stream.objects_view() =~= base + commit_roots(cvs1).take(
                    self.rounds(),
                ) + seq![ser_elements(cvs1.last())]);
            }
        }
        codewords
    }

    /// Reduces a byte string to an index below `size` by big-endian
    /// accumulation modulo `size`.
    fn index_from_bytes(bytes: &Vec<u8>, size: usize) -> (r: usize)
        requires
            size >= 1,
        ensures
            r < size,
            r as int == index_acc(bytes@, size as int),
    {
        let mut acc: u128 = 0;
        let mut i: usize = 0;
        let m = size as u128;
        proof {
            assert(bytes@.take(0) =~= Seq::<u8>::empty());
        }
        while i < bytes.len()
            invariant
                i <= bytes.len(),
                acc < m,
                m == size as u128,
                m >= 1,
                acc as int == index_acc(bytes@.take(i as int), size as int),
            decreases bytes.len() - i,
        {
            proof {
                assert(acc as int * 256 + 255 < 0x100000000000000000000000000000000int)
                    by (nonlinear_arith)
                    requires
                        0 <= acc as int <= u128::MAX as int / 256,
                ;
            }
            acc = (acc * 256 + (bytes[i] as u128)) % m;
            proof {
                assert(bytes@.take(i as int + 1).drop_last() =~= bytes@.take(i as int));
                assert(bytes@.take(i as int + 1).last() == bytes@[i as int]);
            }
            i = i + 1;
        }
        proof {
            assert(bytes@.take(bytes@.len() as int) =~= bytes@);
        }
        acc as usize
    }

    /// Derives up to `number` distinct spot-check indices below `size` from
    /// a seed digest, by counter-mode hashing: candidate `c` is the blake2s
    /// digest of the seed followed by the 8-byte little-endian encoding of
    /// `c`, accumulated into an index below `size`; a candidate is kept only
    /// when its residue modulo `reduced_size` is new, and the search gives
    /// up after 64 candidates per requested index. Both parties derive the
    /// same set from the same seed, since the whole derivation is a function
    /// of the arguments.
    pub fn sample_indices(
        seed: &Vec<u8>,
        size: usize,
        reduced_size: usize,
        number: usize,
    ) -> (r: Vec<usize>)
        requires
            size >= 1,
            reduced_size >= 1,
            number <= usize::MAX / 64,
        ensures
            r@ == sample_indices_spec(seed@, size as int, reduced_size as int, number as int),
            r@.len() <= number,
            number <= size && number <= reduced_size ==> r@.len() == number,
            forall|i: int| 0 <= i < r@.len() ==> (#[trigger] r@[i]) < size,
            forall|i: int, j: int|
                0 <= i < j < r@.len() ==> (r@[i] as int) % (reduced_size as int) != (r@[j] as int)
                    % (reduced_size as int),
    {
        let cap = number * 64;
        let mut indices: Vec<usize> = Vec::new();
        let mut counter: usize = 0;
        proof {
            assert(indices@ =~= sampled_upto(seed@, size as int, reduced_size as int,
                number as int, 0));
        }
        while counter < cap && indices.len() < number
            invariant
                size >= 1,
                reduced_size >= 1,
                counter <= cap,
                cap == number * 64,
                indices@.len() <= number,
                indices@ == sampled_upto(
                    seed@,
                    size as int,
                    reduced_size as int,
                    number as int,
                    counter as nat,
                ),
                forall|i: int| 0 <= i < indices@.len() ==> (#[trigger] indices@[i]) < size,
                forall|i: int, j: int|
                    0 <= i < j < indices@.len() ==> (indices@[i] as int) % (reduced_size as int)
                        != (indices@[j] as int) % (reduced_size as int),
            decreases cap - counter,
        {
            let ghost prev = indices@;
            let mut material: Vec<u8> = Vec::new();
            append_bytes(&mut material, seed);
            let counter_bytes = u64_le_bytes(counter as u64);
            append_bytes(&mut material, &counter_bytes);
            let digest = blake2s_digest(&material);
            let candidate = Self::index_from_bytes(&digest, size);
            proof {
                assert(material@ == seed@ + crate::proof_stream::len_bytes8(counter as int));
                assert(candidate as int == index_candidate(seed@, size as int, counter as int));
            }
            let reduced = candidate % reduced_size;
            let mut fresh = true;
            let mut j: usize = 0;
            while j < indices.len()
                invariant
                    j <= indices@.len(),
                    reduced_size >= 1,
                    reduced == (candidate as int) % (reduced_size as int),
                    fresh <==> forall|t: int|
                        0 <= t < j ==> (#[trigger] indices@[t]) as int % (reduced_size as int)
                            != (candidate as int) % (reduced_size as int),
                decreases indices@.len() - j,
            {
                if indices[j] % reduced_size == reduced {
                    fresh = false;
                }
                j = j + 1;
            }
            if fresh {
                indices.push(candidate);
            }
            counter = counter + 1;
            proof {
                let cn = counter as nat;
                assert(sampled_upto(seed@, size as int, reduced_size as int, number as int, cn)
                    == indices@) by {
                    assert(sampled_upto(
                        seed@,
                        size as int,
                        reduced_size as int,
                        number as int,
                        (cn - 1) as nat,
                    ) == prev);
                    if fresh {
                        assert(!(exists|t: int|
                            0 <= t < prev.len() && (prev[t] as int) % (reduced_size as int)
                                == (candidate as int) % (reduced_size as int)));
                        assert(indices@ == prev.push(candidate));
                    } else {
                        let t = choose|t: int|
                            0 <= t < prev.len() && (prev[t] as int) % (reduced_size as int)
                                == (candidate as int) % (reduced_size as int);
                        assert(exists|t: int|
                            0 <= t < prev.len() && (prev[t] as int) % (reduced_size as int)
                                == (candidate as int) % (reduced_size as int));
                    }
                }
            }
        }
        proof {
            if counter < cap {
                lemma_sampled_upto_stable(
                    seed@,
                    size as int,
                    reduced_size as int,
                    number as int,
                    counter as nat,
                    (number * 64) as nat,
                );
            }
        }
        let ghost base = indices@;
        let bound = if size <= reduced_size {
            size
        } else {
            reduced_size
        };
        let mut cls: usize = 0;
        proof {
            lemma_class_count_bounds(indices@, reduced_size as int, 0, 0);
        }
        while cls < bound && indices.len() < number
            invariant
                size >= 1,
                reduced_size >= 1,
                cls <= bound,
                bound == (if size <= reduced_size {
                    size
                } else {
                    reduced_size
                }),
                indices@.len() <= number,
                indices@ == filled_upto(base, reduced_size as int, number as int, cls as nat),
                class_count(indices@, reduced_size as int, cls as int) >= cls,
                forall|i: int| 0 <= i < indices@.len() ==> (#[trigger] indices@[i]) < size,
                forall|i: int, j: int|
                    0 <= i < j < indices@.len() ==> (indices@[i] as int) % (reduced_size as int)
                        != (indices@[j] as int) % (reduced_size as int),
            decreases bound - cls,
        {
            let ghost prev = indices@;
            let mut used = false;
            let mut j: usize = 0;
            while j < indices.len()
                invariant
                    j <= indices@.len(),
                    reduced_size >= 1,
                    cls < reduced_size,
                    used <==> exists|t: int|
                        0 <= t < j && (#[trigger] indices@[t]) as int % (reduced_size as int)
                            == cls as int,
                decreases indices@.len() - j,
            {
                if indices[j] % reduced_size == cls {
                    used = true;
                }
                j = j + 1;
            }
            if !used {
                indices.push(cls);
                proof {
                    assert((cls as int) % (reduced_size as int) == cls as int) by {
                        lemma_small_mod(cls as nat, reduced_size as nat);
                    }
                }
            }
            proof {
                let m = reduced_size as int;
                let c = cls as int;
                if used {
                    let t = choose|t: int|
                        0 <= t < prev.len() && (#[trigger] prev[t]) as int % m == c;
                    lemma_class_count_occupied(prev, m, c, t);
                } else {
                    assert(indices@.drop_last() =~= prev);
                    lemma_class_count_bounds(prev, m, c, c + 1);
                    assert(class_count(indices@, m, c + 1) == class_count(prev, m, c + 1) + 1);
                }
                assert(indices@ == filled_upto(base, m, number as int, (cls + 1) as nat));
            }
            cls = cls + 1;
        }
        proof {
            if indices@.len() < number {
                assert(cls == bound);
                lemma_class_count_bounds(indices@, reduced_size as int, bound as int, bound as int);
                assert(indices@.len() >= bound);
                if number <= size && number <= reduced_size {
                    assert(false);
                }
            }
            if cls < bound {
                lemma_filled_upto_stable(
                    base,
                    reduced_size as int,
                    number as int,
                    cls as nat,
                    bound as nat,
                );
            }
        }
        indices
    }

    /// The query phase for one round boundary: for each sampled index, push
    /// the two sibling values of the current codeword with the folded value
    /// under them, then the three authentication paths, one object each.
    pub fn query(
        &self,
        current_codeword: &Vec<FieldElement>,
        next_codeword: &Vec<FieldElement>,
        c_indices: &Vec<usize>,
        proof_stream: &mut ProofStream,
    )
        requires
            current_codeword@.len() >= 2,
            exists|m: nat| current_codeword@.len() == pow2(m),
            exists|m: nat| next_codeword@.len() == pow2(m),
            next_codeword@.len() == current_codeword@.len() / 2,
            forall|i: int|
                0 <= i < c_indices@.len() ==> (#[trigger] c_indices@[i]) < current_codeword@.len()
                    / 2,
        ensures
            final(proof_stream).objects_view() == old(proof_stream).objects_view()
                + query_objects_spec(
                views(current_codeword@),
                views(next_codeword@),
                c_indices@,
            ),
            final(proof_stream).read_index_view() == old(proof_stream).read_index_view(),
    {
        let ghost base = old(proof_stream).objects_view();
        let ghost read0 = old(proof_stream).read_index_view();
        let ghost cw = views(current_codeword@);
        let ghost nx = views(next_codeword@);
        let half = current_codeword.len() / 2;
        let cur_leaves = Self::codeword_leaves(current_codeword);
        let next_leaves = Self::codeword_leaves(next_codeword);
        let mut s: usize = 0;
        proof {
            assert(query_objects_spec(cw, nx, c_indices@.take(0)) =~= Seq::<Seq<u8>>::empty());
            assert(base + Seq::<Seq<u8>>::empty() =~= base);
        }
        while s < c_indices.len()
            invariant
                s <= c_indices@.len(),
                cw == views(current_codeword@),
                nx == views(next_codeword@),
                half == current_codeword@.len() / 2,
                current_codeword@.len() >= 2,
                current_codeword@.len() <= usize::MAX,
                exists|m: nat| current_codeword@.len() == pow2(m),
                exists|m: nat| next_codeword@.len() == pow2(m),
                next_codeword@.len() == half,
                forall|i: int|
                    0 <= i < c_indices@.len() ==> (#[trigger] c_indices@[i]) < half,
                cur_leaves@.len() == current_codeword@.len(),
                byte_views(cur_leaves@) == leaf_digests_spec(cw),
                forall|t: int|
                    0 <= t < cur_leaves@.len() ==> (#[trigger] cur_leaves@[t])@.len() == 32,
                next_leaves@.len() == next_codeword@.len(),
                byte_views(next_leaves@) == leaf_digests_spec(nx),
                forall|t: int|
                    0 <= t < next_leaves@.len() ==> (#[trigger] next_leaves@[t])@.len() == 32,
                proof_stream.objects_view() == base + query_objects_spec(
                    cw,
                    nx,
                    c_indices@.take(s as int),
                ),
                proof_stream.read_index_view() == read0,
            decreases c_indices@.len() - s,
        {
            let ghost objs0 = proof_stream.objects_view();
            let a = c_indices[s];
            let b = half + a;
            let mut vals: Vec<FieldElement> = Vec::new();
            vals.push(current_codeword[a]);
            vals.push(current_codeword[b]);
            vals.push(next_codeword[a]);
            proof {
                assert(views(vals@) =~= seq![cw[a as int], cw[b as int], nx[a as int]]);
            }
            let o1 = FieldElement::elements_as_bytes(&vals);
            proof_stream.push(o1);
            let pa = Merkle::open_(a, &cur_leaves);
            let o2 = Self::path_to_bytes(&pa);
            proof_stream.push(o2);
            let pb = Merkle::open_(b, &cur_leaves);
            let o3 = Self::path_to_bytes(&pb);
            proof_stream.push(o3);
            let pc = Merkle::open_(a, &next_leaves);
            let o4 = Self::path_to_bytes(&pc);
            proof_stream.push(o4);
            proof {
                let taken = c_indices@.take(s as int + 1);
                assert(taken.drop_last() =~= c_indices@.take(s as int));
                assert(taken.last() == c_indices@[s as int]);
                assert(b as int == cw.len() as int / 2 + a as int);
                assert(proof_stream.objects_view() =~= base + query_objects_spec(cw, nx, taken));
            }
            s = s + 1;
        }
        proof {
            assert(c_indices@.take(c_indices@.len() as int) =~= c_indices@);
        }
    }

    /// The prover: commits and folds the codeword round by round, then
    /// derives the spot-check indices from the finished commit transcript
    /// and pushes the Merkle openings every round boundary needs. Returns
    /// the top-level indices, which callers outside the protocol need to
    /// check the input codeword itself. At least one round is asked of the
    /// configuration: with none, there is no committed root for the
    /// verifier to hold the clear codeword against.
    pub fn prove(&self, codeword: Vec<FieldElement>, proof_stream: &mut ProofStream) -> (r: Vec<
        usize,
    >)
        requires
            self.wf(),
            codeword@.len() == self.domain_length,
            self.rounds() >= 1,
            self.num_colinearity_tests <= usize::MAX / 64,
        ensures
            r@.len() == self.num_colinearity_tests,
            forall|i: int|
                0 <= i < r@.len() ==> ((#[trigger] r@[i]) as int) < self.domain_length as int / 2,
            forall|i: int, j: int|
                0 <= i < j < r@.len() ==> (r@[i] as int) % (self.domain_length as int / (pow2(
                    (self.rounds() - 1) as nat,
                ) as int)) != (r@[j] as int) % (self.domain_length as int / (pow2(
                    (self.rounds() - 1) as nat,
                ) as int)),
            exists|cvs: Seq<Seq<int>>|
                {
                    &&& #[trigger] self.commit_post(
                        views(codeword@),
                        old(proof_stream).objects_view(),
                        cvs,
                    )
                    &&& r@ == sample_indices_spec(
                        sha3_of(
                            ser_objects(
                                old(proof_stream).objects_view() + self.commit_objects(cvs),
                            ),
                        ),
                        self.domain_length as int / 2,
                        cvs.last().len() as int,
                        self.num_colinearity_tests as int,
                    )
                    &&& final(proof_stream).objects_view() == old(proof_stream).objects_view()
                        + self.commit_objects(cvs) + query_phase_objects(
                        cvs,
                        r@,
                        (cvs.len() - 1) as nat,
                    )
                },
            old(proof_stream).objects_view().is_prefix_of(final(proof_stream).objects_view()),
            final(proof_stream).read_index_view() == old(proof_stream).read_index_view(),
    {
        let ghost base = old(proof_stream).objects_view();
        let ghost dl = self.domain_length as int;
        let ghost ef = self.expansion_factor as int;
        let ghost nct = self.num_colinearity_tests as int;
        let codewords = self.commit(codeword, proof_stream);
        let ghost cvs = codeword_views(codewords@);
        let seed = proof_stream.prover_fiat_shamir();
        proof {
            lemma2_to64();
            lemma_round_length(dl, ef, nct, 0);
            lemma_div_basics(dl);
            lemma_round_length(dl, ef, nct, self.rounds() - 1);
            lemma_pow2_pos((self.rounds() - 1) as nat);
            assert(seed@ == sha3_of(ser_objects(base + self.commit_objects(cvs))));
        }
        let first_half = (self.domain_length as usize) / 2;
        let last_idx = codewords.len() - 1;
        let reduced_size = codewords[last_idx].len();
        proof {
            assert(cvs[last_idx as int].len() == dl / (pow2(last_idx as nat) as int));
            assert(cvs.last().len() == reduced_size as int);
            // the requested count fits: the halving rule leaves room for
            // four tests in the final round, and twice that in the domain
            assert(4 * nct < reduced_size as int);
            lemma_pow2_pos((self.rounds() - 1) as nat);
            lemma_div_nonincreasing(dl, pow2((self.rounds() - 1) as nat) as int);
            assert(4 * nct < dl);
            lemma_div_is_ordered(2 * nct, dl, 2);
            lemma_div_multiples_vanish(nct, 2);
            assert(nct <= dl / 2);
        }
        let top_level_indices = Self::sample_indices(
            &seed,
            first_half,
            reduced_size,
            self.num_colinearity_tests as usize,
        );
        let ghost top = top_level_indices@;
        let mut indices: Vec<usize> = Vec::new();
        let mut t: usize = 0;
        while t < top_level_indices.len()
            invariant
                t <= top_level_indices@.len(),
                indices@.len() == t,
                forall|i: int|
                    0 <= i < t ==> (#[trigger] indices@[i]) == top_level_indices@[i],
            decreases top_level_indices@.len() - t,
        {
            indices.push(top_level_indices[t]);
            t = t + 1;
        }
        proof {
            assert(indices@ =~= top);
        }
        let mut i: usize = 0;
        let n_boundaries = codewords.len() - 1;
        proof {
            assert(query_phase_objects(cvs, top, 0) =~= Seq::<Seq<u8>>::empty());
            assert(base + self.commit_objects(cvs) + query_phase_objects(cvs, top, 0) =~= base
                + self.commit_objects(cvs));
        }
        while i < n_boundaries
            invariant
                self.wf(),
                n_boundaries == codewords@.len() - 1,
                i <= n_boundaries,
                cvs == codeword_views(codewords@),
                top == top_level_indices@,
                codewords@.len() == (if self.rounds() == 0 {
                    1int
                } else {
                    self.rounds()
                }),
                self.rounds() >= 1,
                dl == self.domain_length as int,
                ef == self.expansion_factor as int,
                nct == self.num_colinearity_tests as int,
                base == old(proof_stream).objects_view(),
                forall|ti: int|
                    0 <= ti < codewords@.len() ==> (#[trigger] codeword_views(codewords@)[
                    ti]).len() == dl / (pow2(ti as nat) as int),
                indices@ == (if i == 0 {
                    top
                } else {
                    indices_at(cvs, top, (i - 1) as nat)
                }),
                proof_stream.objects_view() == base + self.commit_objects(cvs)
                    + query_phase_objects(cvs, top, i as nat),
                proof_stream.read_index_view() == old(proof_stream).read_index_view(),
            decreases n_boundaries - i,
        {
            let ghost objs0 = proof_stream.objects_view();
            let ghost before = indices@;
            proof {
                lemma_round_length(dl, ef, nct, i as int);
                lemma_round_length(dl, ef, nct, i as int + 1);
                assert(codeword_views(codewords@)[i as int].len() == dl / (pow2(i as nat) as int));
                assert(codewords@[i as int]@.len() == dl / (pow2(i as nat) as int));
                lemma_pow2_pos(i as nat);
                lemma_pow2_unfold((i + 1) as nat);
                lemma_div_denominator(dl, pow2(i as nat) as int, 2);
                self.lemma_round_length_pow2(i as int);
                self.lemma_round_length_pow2(i as int + 1);
                assert(codeword_views(codewords@)[i as int + 1].len() == dl / (pow2(
                    (i + 1) as nat,
                ) as int));
                assert(codewords@[i as int + 1]@.len() == dl / (pow2((i + 1) as nat) as int));
                let m0 = choose|m: nat|
                    dl / (pow2(i as nat) as int) == #[trigger] pow2(m) as int;
                assert(codewords@[i as int]@.len() == pow2(m0));
                let m1 = choose|m: nat|
                    dl / (pow2((i + 1) as nat) as int) == #[trigger] pow2(m) as int;
                assert(codewords@[i as int + 1]@.len() == pow2(m1));
            }
            let cur_half = codewords[i].len() / 2;
            let mut reduced: Vec<usize> = Vec::new();
            let mut s: usize = 0;
            while s < indices.len()
                invariant
                    s <= indices@.len(),
                    cur_half >= 1,
                    reduced@.len() == s,
                    forall|x: int| 0 <= x < s ==> (#[trigger] reduced@[x]) < cur_half,
                    forall|x: int|
                        0 <= x < s ==> (#[trigger] reduced@[x]) as int == indices@[x] as int
                            % cur_half as int,
                decreases indices@.len() - s,
            {
                reduced.push(indices[s] % cur_half);
                s = s + 1;
            }
            proof {
                assert(reduced@ =~= reduce_indices(before, cur_half as int));
                assert(cur_half as int == cvs[i as int].len() as int / 2);
                if i == 0 {
                    assert(reduce_indices(before, cur_half as int) == indices_at(
                        cvs,
                        top,
                        0,
                    ));
                } else {
                    assert(reduce_indices(before, cur_half as int) == indices_at(
                        cvs,
                        top,
                        i as nat,
                    ));
                }
            }
            indices = reduced;
            self.query(&codewords[i], &codewords[i + 1], &indices, proof_stream);
            proof {
                assert(views(codewords@[i as int]@) == cvs[i as int]);
                assert(views(codewords@[i as int + 1]@) == cvs[i as int + 1]);
                assert(indices@ == indices_at(cvs, top, i as nat));
                assert(proof_stream.objects_view() =~= base + self.commit_objects(cvs)
                    + query_phase_objects(cvs, top, (i + 1) as nat));
            }
            i = i + 1;
        }
        proof {
            assert(i as int == cvs.len() - 1);
            let full = base + self.commit_objects(cvs) + query_phase_objects(
                cvs,
                top,
                (cvs.len() - 1) as nat,
            );
            assert(proof_stream.objects_view() == full);
            assert(full.take(base.len() as int) =~= base);
            assert({
                &&& self.commit_post(views(codeword@), base, cvs)
                &&& top == sample_indices_spec(
                    sha3_of(ser_objects(base + self.commit_objects(cvs))),
                    dl / 2,
                    cvs.last().len() as int,
                    nct,
                )
                &&& proof_stream.objects_view() == base + self.commit_objects(cvs)
                    + query_phase_objects(cvs, top, (cvs.len() - 1) as nat)
            });
        }
        top_level_indices
    }

    /// The working codeword length at any round is a power of two.
    proof fn lemma_round_length_pow2(self, i: int)
        requires
            self.wf(),
            0 <= i <= self.rounds(),
            self.rounds() >= 1,
        ensures
            exists|m: nat|
                self.domain_length as int / (pow2(i as nat) as int) == #[trigger] pow2(m) as int,
    {
        lemma2_to64();
        let dl = self.domain_length as int;
        let m = choose|m: nat| self.domain_length == pow2(m);
        if i as nat <= m {
            lemma_pow2_subtracts(i as nat, m);
            lemma_pow2_pos(i as nat);
            lemma_pow2_pos((m - i) as nat);
            lemma_pow2_adds(i as nat, (m - i) as nat);
            assert(pow2(m) == pow2(i as nat) * pow2((m - i) as nat));
            lemma_div_multiples_vanish(pow2((m - i) as nat) as int, pow2(i as nat) as int);
            assert(dl / (pow2(i as nat) as int) == pow2((m - i) as nat) as int);
        } else {
            // the working length never reaches zero, so this cannot happen
            if i < self.rounds() {
                lemma_round_length(
                    dl,
                    self.expansion_factor as int,
                    self.num_colinearity_tests as int,
                    i,
                );
            } else {
                lemma_round_length(
                    dl,
                    self.expansion_factor as int,
                    self.num_colinearity_tests as int,
                    i - 1,
                );
                lemma_pow2_pos((i - 1) as nat);
                lemma_pow2_unfold(i as nat);
                lemma_div_denominator(dl, pow2((i - 1) as nat) as int, 2);
            }
            lemma_pow2_strictly_increases(m, i as nat);
            lemma_basic_div(dl, pow2(i as nat) as int);
            assert(false);
        }
    }

    /// The evaluation domain of round `r`: the round-zero domain with offset
    /// and generator squared `r` times over.
    pub open spec fn round_domain(self, r: int, len: int) -> Seq<int> {
        Seq::new(
            len as nat,
            |i: int|
                (powm(self.offset as int, pow2(r as nat)) * powm(
                    powm(self.omega as int, pow2(r as nat)),
                    i as nat,
                )) % (FIELD_PRIME as int),
        )
    }

    /// What acceptance says of the clear codeword a proof carries: reading
    /// the object log from the verifier's start position, after the round
    /// roots comes a serialized codeword of the final round's length whose
    /// Merkle root is the last round root, and whose interpolation over the
    /// final round's domain stays within the degree the expansion factor
    /// allows.
    pub open spec fn accepted_final_codeword(self, objs: Seq<Seq<u8>>, k: int) -> bool {
        let n = self.rounds();
        let ser = objs[k + n];
        &&& objs.len() >= k + n + 1
        &&& parses_as_elements(ser)
        &&& parse_elements(ser).len() == self.domain_length as int / (pow2((n - 1) as nat) as int)
        &&& merkle_root_spec(leaf_digests_spec(parse_elements(ser))) == objs[k + n - 1]
        &&& degree_of_spec(
            crate::polynomial::interpolate_spec(
                self.round_domain(n - 1, parse_elements(ser).len() as int),
                parse_elements(ser),
            ),
        ) <= self.domain_length as int / (self.expansion_factor as int) - 1
    }

    /// The index list the verifier uses at round boundary `rr`: the
    /// top-level indices reduced modulo half of every round length so far.
    pub open spec fn verify_indices(self, top: Seq<usize>, rr: nat) -> Seq<usize>
        decreases rr,
    {
        if rr == 0 {
            reduce_indices(top, self.domain_length as int / 2)
        } else {
            reduce_indices(
                self.verify_indices(top, (rr - 1) as nat),
                (self.domain_length as int / (pow2(rr) as int)) / 2,
            )
        }
    }

    /// One spot check of the query phase, read off the object log: the four
    /// objects at the check's position hold a parseable value triple and
    /// three 32-byte-chunked paths; each path folds back to its round root
    /// under its index; and the three points are distinct and colinear
    /// under the round's fold challenge.
    pub open spec fn query_check_ok(
        self,
        objs: Seq<Seq<u8>>,
        k: int,
        top: Seq<usize>,
        rr: int,
        s: int,
    ) -> bool {
        let p = FIELD_PRIME as int;
        let n = self.rounds();
        let ll = top.len() as int;
        let pos = k + n + 1 + 4 * (rr * ll + s);
        let c = self.verify_indices(top, rr as nat)[s] as int;
        let half = (self.domain_length as int / (pow2(rr as nat) as int)) / 2;
        let b_idx = half + c;
        let vals = parse_elements(objs[pos]);
        let pa = chunks32(objs[pos + 1]);
        let pb = chunks32(objs[pos + 2]);
        let pc = chunks32(objs[pos + 3]);
        let alpha = challenge_of(objs.take(k + rr + 1));
        let ax = (powm(self.offset as int, pow2(rr as nat)) * powm(
            powm(self.omega as int, pow2(rr as nat)),
            c as nat,
        )) % p;
        let bx = (powm(self.offset as int, pow2(rr as nat)) * powm(
            powm(self.omega as int, pow2(rr as nat)),
            b_idx as nat,
        )) % p;
        &&& objs.len() > pos + 3
        &&& parses_as_elements(objs[pos])
        &&& vals.len() == 3
        &&& objs[pos + 1].len() % 32 == 0
        &&& objs[pos + 2].len() % 32 == 0
        &&& objs[pos + 3].len() % 32 == 0
        &&& c < pow2(pa.len()) && path_fold(blake2s_of(le_bytes(vals[0])), c, pa) == objs[k + rr]
        &&& b_idx < pow2(pb.len()) && path_fold(blake2s_of(le_bytes(vals[1])), b_idx, pb) == objs[k
            + rr]
        &&& c < pow2(pc.len()) && path_fold(blake2s_of(le_bytes(vals[2])), c, pc) == objs[k + rr
            + 1]
        &&& ax != bx && ax != alpha && bx != alpha
        &&& degree_of_spec(
            crate::polynomial::interpolate_spec(seq![ax, bx, alpha], seq![vals[0], vals[1], vals[2]]),
        ) <= 1
    }

    /// What the verifier computes, as a function of the configuration and
    /// the object log from its read cursor on: the round roots and the
    /// clear final codeword are in place and consistent, the final round's
    /// domain is free of collisions, the final codeword's interpolant meets
    /// the degree bound, and every derived spot check passes.
    pub open spec fn verify_spec(self, objs: Seq<Seq<u8>>, k: int) -> bool {
        let n = self.rounds();
        let len = parse_elements(objs[k + n]).len() as int;
        let top = sample_indices_spec(
            sha3_of(ser_objects(objs.take(k + n + 1))),
            self.domain_length as int / 2,
            len,
            self.num_colinearity_tests as int,
        );
        &&& self.accepted_final_codeword(objs, k)
        &&& (forall|x: int, y: int|
            0 <= x < y < len ==> #[trigger] self.round_domain(n - 1, len)[x]
                != #[trigger] self.round_domain(n - 1, len)[y])
        &&& (forall|r2: int, s2: int|
            0 <= r2 < n - 1 && 0 <= s2 < top.len() ==> #[trigger] self.query_check_ok(
                objs,
                k,
                top,
                r2,
                s2,
            ))
    }

    /// A failed spot check refutes the whole verification predicate.
    proof fn lemma_check_refutes(
        self,
        objs: Seq<Seq<u8>>,
        k: int,
        top: Seq<usize>,
        rr: int,
        s2: int,
    )
        requires
            top == sample_indices_spec(
                sha3_of(ser_objects(objs.take(k + self.rounds() + 1))),
                self.domain_length as int / 2,
                parse_elements(objs[k + self.rounds()]).len() as int,
                self.num_colinearity_tests as int,
            ),
            0 <= rr < self.rounds() - 1,
            0 <= s2 < top.len(),
            !self.query_check_ok(objs, k, top, rr, s2),
        ensures
            !self.verify_spec(objs, k),
    {
        let tspec = sample_indices_spec(
            sha3_of(ser_objects(objs.take(k + self.rounds() + 1))),
            self.domain_length as int / 2,
            parse_elements(objs[k + self.rounds()]).len() as int,
            self.num_colinearity_tests as int,
        );
        assert(top == tspec);
        if self.verify_spec(objs, k) {
            assert(self.query_check_ok(objs, k, tspec, rr, s2));
        }
    }

    /// The points `offset·ω^i` for the given count.
    fn domain_points(offset: FieldElement, omega: FieldElement, n: usize) -> (r: Vec<FieldElement>)
        ensures
            r@.len() == n,
            forall|i: int|
                0 <= i < n ==> views(r@)[i] == (offset@ * powm(omega@, i as nat)) % (
                FIELD_PRIME as int),
    {
        let mut result: Vec<FieldElement> = Vec::new();
        let mut i: usize = 0;
        while i < n
            invariant
                i <= n,
                result@.len() == i,
                forall|t: int|
                    0 <= t < i ==> result@[t]@ == (offset@ * powm(omega@, t as nat)) % (
                    FIELD_PRIME as int),
            decreases n - i,
        {
            result.push(offset.mul(omega.pow(i as u128)));
            i = i + 1;
        }
        proof {
            assert forall|i: int| 0 <= i < n implies views(result@)[i] == (offset@ * powm(
                omega@,
                i as nat,
            )) % (FIELD_PRIME as int) by {
                assert(views(result@)[i] == result@[i]@);
            }
        }
        result
    }

    /// Splits a flattened authentication path back into its 32-byte
    /// digests; fails exactly when the byte count is not a multiple of 32.
    fn bytes_to_path(b: &Vec<u8>) -> (r: Option<Vec<Vec<u8>>>)
        ensures
            (r matches Some(_)) <==> b@.len() % 32 == 0,
            r matches Some(path) ==> path@.len() == b@.len() / 32 && forall|t: int|
                0 <= t < path@.len() ==> (#[trigger] path@[t])@ == b@.subrange(
                    32 * t,
                    32 * t + 32,
                ),
    {
        if b.len() % 32 != 0 {
            return None;
        }
        let count = b.len() / 32;
        let mut path: Vec<Vec<u8>> = Vec::new();
        let mut e: usize = 0;
        while e < count
            invariant
                e <= count,
                count == b@.len() / 32,
                b@.len() <= usize::MAX,
                b@.len() % 32 == 0,
                path@.len() == e,
                forall|t: int|
                    0 <= t < e ==> (#[trigger] path@[t])@ == b@.subrange(32 * t, 32 * t + 32),
            decreases count - e,
        {
            proof {
                lemma_fundamental_div_mod(b@.len() as int, 32);
            }
            let mut digest: Vec<u8> = Vec::new();
            let mut t: usize = 0;
            let base = 32 * e;
            while t < 32
                invariant
                    t <= 32,
                    base == 32 * e,
                    base + 32 <= b@.len(),
                    b@.len() <= usize::MAX,
                    digest@.len() == t,
                    digest@ == b@.subrange(base as int, base as int + t),
                decreases 32 - t,
            {
                digest.push(b[base + t]);
                proof {
                    assert(digest@ =~= b@.subrange(base as int, base as int + t + 1));
                }
                t = t + 1;
            }
            path.push(digest);
            e = e + 1;
        }
        Some(path)
    }

    /// The verifier: replays the transcript — pulling each round root and
    /// rederiving its fold challenge from exactly the objects read so far —
    /// then checks the clear final codeword against its root and its degree
    /// bound, rederives the spot-check indices, and checks every opening
    /// and colinearity relation. Any failed check rejects; nothing panics
    /// on malformed input. The result is exactly `verify_spec` of the
    /// object log from the read cursor on: a function of the configuration
    /// and the proof alone. At least one round is asked of the
    /// configuration, as the clear codeword is held against the last
    /// committed root.
    pub fn verify(&self, proof_stream: &mut ProofStream) -> (r: bool)
        requires
            self.wf(),
            self.rounds() >= 1,
            self.num_colinearity_tests <= usize::MAX / 64,
            self.domain_length + 2 <= usize::MAX as u128,
        ensures
            final(proof_stream).objects_view() == old(proof_stream).objects_view(),
            final(proof_stream).read_index_view() >= old(proof_stream).read_index_view(),
            r == self.verify_spec(
                old(proof_stream).objects_view(),
                old(proof_stream).read_index_view(),
            ),
            r ==> final(proof_stream).read_index_view() == old(proof_stream).read_index_view()
                + self.rounds() + 1 + 4 * ((self.rounds() - 1) * sample_indices_spec(
                sha3_of(
                    ser_objects(
                        old(proof_stream).objects_view().take(
                            old(proof_stream).read_index_view() + self.rounds() + 1,
                        ),
                    ),
                ),
                self.domain_length as int / 2,
                parse_elements(
                    old(proof_stream).objects_view()[old(proof_stream).read_index_view()
                        + self.rounds()],
                ).len() as int,
                self.num_colinearity_tests as int,
            ).len() as int),
            r ==> self.accepted_final_codeword(
                old(proof_stream).objects_view(),
                old(proof_stream).read_index_view(),
            ),
    {
        let ghost objs = old(proof_stream).objects_view();
        let ghost k = old(proof_stream).read_index_view();
        let ghost dl = self.domain_length as int;
        let ghost ef = self.expansion_factor as int;
        let ghost nct = self.num_colinearity_tests as int;
        let n_rounds = self.num_rounds();
        // the round roots, each fold challenge rederived right after its root
        let mut roots: Vec<Vec<u8>> = Vec::new();
        let mut alphas: Vec<FieldElement> = Vec::new();
        let mut r: u128 = 0;
        while r < n_rounds
            invariant
                r <= n_rounds,
                n_rounds as int == self.rounds(),
                roots@.len() == r,
                alphas@.len() == r,
                objs == old(proof_stream).objects_view(),
                k == old(proof_stream).read_index_view(),
                proof_stream.objects_view() == objs,
                proof_stream.read_index_view() == k + r,
                forall|t: int| 0 <= t < r ==> (#[trigger] roots@[t])@ == objs[k + t],
                forall|t: int|
                    0 <= t < r ==> (#[trigger] alphas@[t])@ == challenge_of(objs.take(k + t + 1)),
            decreases n_rounds - r,
        {
            let root = match proof_stream.pull() {
                Ok(o) => o,
                Err(_) => {
                    proof {
                        assert(objs.len() <= k + r);
                        assert(!self.accepted_final_codeword(objs, k));
                    }
                    return false;
                },
            };
            let ch = proof_stream.verifier_fiat_shamir();
            let alpha = FieldElement::sample(&ch);
            roots.push(root);
            alphas.push(alpha);
            r = r + 1;
        }
        // the clear final codeword
        let last_ser = match proof_stream.pull() {
            Ok(o) => o,
            Err(_) => {
                proof {
                    assert(objs.len() <= k + n_rounds);
                    assert(!self.accepted_final_codeword(objs, k));
                }
                return false;
            },
        };
        let last_codeword = match FieldElement::bytes_as_elements(&last_ser) {
            Ok(v) => v,
            Err(_) => {
                proof {
                    assert(last_ser@ == objs[k + self.rounds()]);
                    assert(!self.accepted_final_codeword(objs, k));
                }
                return false;
            },
        };
        proof {
            assert(last_ser@ == objs[k + self.rounds()]);
            assert(views(last_codeword@) =~= parse_elements(objs[k + self.rounds()]));
        }
        // its expected length
        let mut expected_len = self.domain_length;
        let mut halvings: u128 = 0;
        proof {
            lemma2_to64();
            lemma_div_basics(dl);
        }
        while halvings + 1 < n_rounds
            invariant
                halvings < n_rounds,
                dl == self.domain_length as int,
                expected_len as int == dl / (pow2(halvings as nat) as int),
            decreases n_rounds - halvings,
        {
            proof {
                lemma_pow2_pos(halvings as nat);
                lemma_pow2_unfold((halvings + 1) as nat);
                lemma_div_denominator(dl, pow2(halvings as nat) as int, 2);
            }
            expected_len = expected_len / 2;
            halvings = halvings + 1;
        }
        proof {
            assert(halvings == n_rounds - 1);
            lemma_round_length(dl, ef, nct, self.rounds() - 1);
        }
        if (last_codeword.len() as u128) != expected_len {
            proof {
                assert(!self.accepted_final_codeword(objs, k));
            }
            return false;
        }
        proof {
            lemma_pow2_pos((self.rounds() - 1) as nat);
            lemma_div_nonincreasing(dl, pow2((self.rounds() - 1) as nat) as int);
        }
        // the codeword must hang under the last pulled root
        let leaves = Self::codeword_leaves(&last_codeword);
        proof {
            self.lemma_round_length_pow2(self.rounds() - 1);
            let m = choose|m: nat|
                dl / (pow2((self.rounds() - 1) as nat) as int) == #[trigger] pow2(m) as int;
            assert(leaves@.len() == pow2(m));
        }
        let lroot = Merkle::commit_(&leaves);
        let last_root_idx = roots.len() - 1;
        if !Merkle::bytes_eq(&lroot, &roots[last_root_idx]) {
            proof {
                assert(roots@[last_root_idx as int]@ == objs[k + self.rounds() - 1]);
                assert(!self.accepted_final_codeword(objs, k));
            }
            return false;
        }
        // the final round's domain
        let mut omega_l = FieldElement::new(self.omega);
        let mut offset_l = FieldElement::new(self.offset);
        let mut sq: u128 = 0;
        proof {
            lemma_small_mod(self.omega as nat, FIELD_PRIME as nat);
            lemma_small_mod(self.offset as nat, FIELD_PRIME as nat);
            lemma_pow1(self.omega as int);
            lemma_pow1(self.offset as int);
            lemma2_to64();
        }
        while sq + 1 < n_rounds
            invariant
                sq < n_rounds,
                omega_l@ == powm(self.omega as int, pow2(sq as nat)),
                offset_l@ == powm(self.offset as int, pow2(sq as nat)),
            decreases n_rounds - sq,
        {
            let ghost sn = sq as nat;
            omega_l = omega_l.mul(omega_l);
            offset_l = offset_l.mul(offset_l);
            sq = sq + 1;
            proof {
                let p = FIELD_PRIME as int;
                lemma_pow2_unfold((sn + 1) as nat);
                lemma_mul_mod_noop_general(
                    pow(self.omega as int, pow2(sn)),
                    pow(self.omega as int, pow2(sn)),
                    p,
                );
                lemma_pow_adds(self.omega as int, pow2(sn), pow2(sn));
                lemma_mul_mod_noop_general(
                    pow(self.offset as int, pow2(sn)),
                    pow(self.offset as int, pow2(sn)),
                    p,
                );
                lemma_pow_adds(self.offset as int, pow2(sn), pow2(sn));
            }
        }
        let last_domain = Self::domain_points(offset_l, omega_l, last_codeword.len());
        let ghost dom = self.round_domain(self.rounds() - 1, last_codeword@.len() as int);
        proof {
            assert(views(last_domain@) =~= dom);
        }
        // reject a degenerate domain rather than interpolate over it
        let mut di: usize = 0;
        while di < last_domain.len()
            invariant
                di <= last_domain@.len(),
                objs == old(proof_stream).objects_view(),
                k == old(proof_stream).read_index_view(),
                proof_stream.objects_view() == objs,
                proof_stream.read_index_view() == k + self.rounds() + 1,
                dom == self.round_domain(self.rounds() - 1, last_domain@.len() as int),
                last_domain@.len() == last_codeword@.len(),
                last_codeword@.len() == parse_elements(objs[k + self.rounds()]).len(),
                views(last_domain@) == dom,
                self.rounds() >= 1,
                forall|x: int, y: int|
                    0 <= x < y < di ==> last_domain@[x]@ != last_domain@[y]@,
            decreases last_domain@.len() - di,
        {
            let mut dj: usize = 0;
            while dj < di
                invariant
                    dj <= di < last_domain@.len(),
                    objs == old(proof_stream).objects_view(),
                    k == old(proof_stream).read_index_view(),
                    proof_stream.objects_view() == objs,
                    proof_stream.read_index_view() == k + self.rounds() + 1,
                    dom == self.round_domain(self.rounds() - 1, last_domain@.len() as int),
                    last_domain@.len() == last_codeword@.len(),
                    last_codeword@.len() == parse_elements(objs[k + self.rounds()]).len(),
                    views(last_domain@) == dom,
                    self.rounds() >= 1,
                    forall|x: int, y: int|
                        0 <= x < y < di ==> last_domain@[x]@ != last_domain@[y]@,
                    forall|x: int| 0 <= x < dj ==> last_domain@[x]@ != last_domain@[di as int]@,
                decreases di - dj,
            {
                if last_domain[dj].value() == last_domain[di].value() {
                    proof {
                        assert(dom[dj as int] == views(last_domain@)[dj as int]);
                        assert(dom[di as int] == views(last_domain@)[di as int]);
                        assert(dom[dj as int] == dom[di as int]);
                        assert(!self.verify_spec(objs, k));
                    }
                    return false;
                }
                dj = dj + 1;
            }
            di = di + 1;
        }
        // low-degree check by direct interpolation
        proof {
            assert(last_domain@.len() >= 1);
            assert forall|x: int, y: int|
                0 <= x < y < last_domain@.len() implies views(last_domain@)[x] != views(
                last_domain@,
            )[y] by {
                assert(views(last_domain@)[x] == last_domain@[x]@);
                assert(views(last_domain@)[y] == last_domain@[y]@);
            }
        }
        let poly = crate::polynomial::Polynomial::interpolate_domain(&last_domain, &last_codeword);
        let degree = crate::polynomial::Polynomial::degree_of(&poly);
        let max_degree = self.domain_length / self.expansion_factor;
        if (degree as u128) >= max_degree {
            proof {
                assert(!self.accepted_final_codeword(objs, k));
            }
            return false;
        }
        proof {
            assert(self.accepted_final_codeword(objs, k));
        }
        // rederive the spot-check indices from the full read prefix
        let seed = proof_stream.verifier_fiat_shamir();
        let first_half = (self.domain_length as usize) / 2;
        proof {
            lemma_round_length(dl, ef, nct, 0);
            lemma_div_basics(dl);
            assert(seed@ == sha3_of(ser_objects(objs.take(k + self.rounds() + 1))));
        }
        let top_indices = Self::sample_indices(
            &seed,
            first_half,
            last_codeword.len(),
            self.num_colinearity_tests as usize,
        );
        let ghost top = top_indices@;
        proof {
            assert(top == sample_indices_spec(
                sha3_of(ser_objects(objs.take(k + self.rounds() + 1))),
                dl / 2,
                parse_elements(objs[k + self.rounds()]).len() as int,
                nct,
            ));
        }
        let ghost ll = top.len() as int;
        let mut indices: Vec<usize> = Vec::new();
        let mut ci: usize = 0;
        while ci < top_indices.len()
            invariant
                ci <= top_indices@.len(),
                indices@.len() == ci,
                forall|x: int| 0 <= x < ci ==> (#[trigger] indices@[x]) == top_indices@[x],
            decreases top_indices@.len() - ci,
        {
            indices.push(top_indices[ci]);
            ci = ci + 1;
        }
        proof {
            assert(indices@ =~= top);
        }
        // every round boundary: openings and colinearity
        let mut cur_len = self.domain_length as usize;
        let mut omega_r = FieldElement::new(self.omega);
        let mut offset_r = FieldElement::new(self.offset);
        let mut rr: usize = 0;
        let n_boundaries = roots.len() - 1;
        proof {
            lemma_small_mod(self.omega as nat, FIELD_PRIME as nat);
            lemma_small_mod(self.offset as nat, FIELD_PRIME as nat);
            lemma_pow1(self.omega as int);
            lemma_pow1(self.offset as int);
            lemma2_to64();
            lemma_mul_basics(ll);
        }
        while rr < n_boundaries
            invariant
                self.wf(),
                self.rounds() >= 1,
                dl == self.domain_length as int,
                ef == self.expansion_factor as int,
                nct == self.num_colinearity_tests as int,
                n_boundaries == roots@.len() - 1,
                roots@.len() <= usize::MAX,
                roots@.len() == self.rounds(),
                alphas@.len() == self.rounds(),
                rr <= n_boundaries,
                cur_len as int == dl / (pow2(rr as nat) as int),
                omega_r@ == powm(self.omega as int, pow2(rr as nat)),
                offset_r@ == powm(self.offset as int, pow2(rr as nat)),
                objs == old(proof_stream).objects_view(),
                k == old(proof_stream).read_index_view(),
                proof_stream.objects_view() == objs,
                proof_stream.read_index_view() == k + self.rounds() + 1 + 4 * (rr as int * ll),
                rr as int * ll >= 0,
                ll == top.len() as int,
                top == sample_indices_spec(
                    sha3_of(ser_objects(objs.take(k + self.rounds() + 1))),
                    dl / 2,
                    parse_elements(objs[k + self.rounds()]).len() as int,
                    nct,
                ),
                indices@.len() == ll,
                indices@ == (if rr == 0 {
                    top
                } else {
                    self.verify_indices(top, (rr - 1) as nat)
                }),
                forall|t: int| 0 <= t < roots@.len() ==> (#[trigger] roots@[t])@ == objs[k + t],
                forall|t: int|
                    0 <= t < alphas@.len() ==> (#[trigger] alphas@[t])@ == challenge_of(
                        objs.take(k + t + 1),
                    ),
                forall|r2: int, s2: int|
                    0 <= r2 < rr && 0 <= s2 < ll ==> #[trigger] self.query_check_ok(
                        objs,
                        k,
                        top,
                        r2,
                        s2,
                    ),
            decreases n_boundaries - rr,
        {
            proof {
                lemma2_to64();
                lemma_div_basics(dl);
                lemma_round_length(dl, ef, nct, rr as int);
                lemma_pow2_pos(rr as nat);
                lemma_pow2_unfold((rr + 1) as nat);
                lemma_div_denominator(dl, pow2(rr as nat) as int, 2);
            }
            let cur_half = cur_len / 2;
            let ghost before = indices@;
            let mut reduced: Vec<usize> = Vec::new();
            let mut s: usize = 0;
            while s < indices.len()
                invariant
                    s <= indices@.len(),
                    cur_half >= 1,
                    reduced@.len() == s,
                    forall|x: int| 0 <= x < s ==> (#[trigger] reduced@[x]) < cur_half,
                    forall|x: int|
                        0 <= x < s ==> (#[trigger] reduced@[x]) as int == indices@[x] as int
                            % cur_half as int,
                decreases indices@.len() - s,
            {
                reduced.push(indices[s] % cur_half);
                s = s + 1;
            }
            proof {
                assert(reduced@ =~= reduce_indices(before, cur_half as int));
                assert(cur_half as int == (dl / (pow2(rr as nat) as int)) / 2);
                assert(reduce_indices(before, cur_half as int) == self.verify_indices(
                    top,
                    rr as nat,
                ));
            }
            indices = reduced;
            let mut s2: usize = 0;
            while s2 < indices.len()
                invariant
                    self.wf(),
                    self.rounds() >= 1,
                    dl == self.domain_length as int,
                    nct == self.num_colinearity_tests as int,
                    s2 <= indices@.len(),
                    cur_half >= 1,
                    cur_half + cur_half <= usize::MAX,
                    cur_half as int == (dl / (pow2(rr as nat) as int)) / 2,
                    forall|x: int| 0 <= x < indices@.len() ==> (#[trigger] indices@[x]) < cur_half,
                    roots@.len() == self.rounds(),
                    alphas@.len() == self.rounds(),
                    roots@.len() <= usize::MAX,
                    rr < roots@.len() - 1,
                    omega_r@ == powm(self.omega as int, pow2(rr as nat)),
                    offset_r@ == powm(self.offset as int, pow2(rr as nat)),
                    objs == old(proof_stream).objects_view(),
                    k == old(proof_stream).read_index_view(),
                    proof_stream.objects_view() == objs,
                    proof_stream.read_index_view() == k + self.rounds() + 1 + 4 * (rr as int * ll
                        + s2 as int),
                    rr as int * ll >= 0,
                    ll == top.len() as int,
                    top == sample_indices_spec(
                        sha3_of(ser_objects(objs.take(k + self.rounds() + 1))),
                        dl / 2,
                        parse_elements(objs[k + self.rounds()]).len() as int,
                        nct,
                    ),
                    indices@.len() == ll,
                    indices@ == self.verify_indices(top, rr as nat),
                    forall|t: int| 0 <= t < roots@.len() ==> (#[trigger] roots@[t])@ == objs[k + t],
                    forall|t: int|
                        0 <= t < alphas@.len() ==> (#[trigger] alphas@[t])@ == challenge_of(
                            objs.take(k + t + 1),
                        ),
                    forall|r2: int, x2: int|
                        0 <= r2 < rr && 0 <= x2 < ll ==> #[trigger] self.query_check_ok(
                            objs,
                            k,
                            top,
                            r2,
                            x2,
                        ),
                    forall|x2: int|
                        0 <= x2 < s2 ==> #[trigger] self.query_check_ok(
                            objs,
                            k,
                            top,
                            rr as int,
                            x2,
                        ),
                decreases indices@.len() - s2,
            {
                let ghost pos = k + self.rounds() + 1 + 4 * (rr as int * ll + s2 as int);
                let c = indices[s2];
                let b_idx = cur_half + c;
                proof {
                    assert(c as int == self.verify_indices(top, rr as nat)[s2 as int] as int);
                }
                let vals_ser = match proof_stream.pull() {
                    Ok(o) => o,
                    Err(_) => {
                        proof {
                            assert(objs.len() <= pos);
                            assert(!self.query_check_ok(objs, k, top, rr as int, s2 as int));
                            self.lemma_check_refutes(objs, k, top, rr as int, s2 as int);
                        }
                        return false;
                    },
                };
                proof {
                    assert(vals_ser@ == objs[pos]);
                }
                let vals = match FieldElement::bytes_as_elements(&vals_ser) {
                    Ok(v) => v,
                    Err(_) => {
                        proof {
                            assert(!self.query_check_ok(objs, k, top, rr as int, s2 as int));
                            self.lemma_check_refutes(objs, k, top, rr as int, s2 as int);
                        }
                        return false;
                    },
                };
                proof {
                    assert(views(vals@) =~= parse_elements(objs[pos]));
                }
                if vals.len() != 3 {
                    proof {
                        assert(!self.query_check_ok(objs, k, top, rr as int, s2 as int));
                        self.lemma_check_refutes(objs, k, top, rr as int, s2 as int);
                    }
                    return false;
                }
                let pa_bytes = match proof_stream.pull() {
                    Ok(o) => o,
                    Err(_) => {
                        proof {
                            assert(objs.len() <= pos + 1);
                            assert(!self.query_check_ok(objs, k, top, rr as int, s2 as int));
                            self.lemma_check_refutes(objs, k, top, rr as int, s2 as int);
                        }
                        return false;
                    },
                };
                let pa = match Self::bytes_to_path(&pa_bytes) {
                    Some(p) => p,
                    None => {
                        proof {
                            assert(pa_bytes@ == objs[pos + 1]);
                            assert(!self.query_check_ok(objs, k, top, rr as int, s2 as int));
                            self.lemma_check_refutes(objs, k, top, rr as int, s2 as int);
                        }
                        return false;
                    },
                };
                let pb_bytes = match proof_stream.pull() {
                    Ok(o) => o,
                    Err(_) => {
                        proof {
                            assert(objs.len() <= pos + 2);
                            assert(!self.query_check_ok(objs, k, top, rr as int, s2 as int));
                            self.lemma_check_refutes(objs, k, top, rr as int, s2 as int);
                        }
                        return false;
                    },
                };
                let pb = match Self::bytes_to_path(&pb_bytes) {
                    Some(p) => p,
                    None => {
                        proof {
                            assert(pb_bytes@ == objs[pos + 2]);
                            assert(!self.query_check_ok(objs, k, top, rr as int, s2 as int));
                            self.lemma_check_refutes(objs, k, top, rr as int, s2 as int);
                        }
                        return false;
                    },
                };
                let pc_bytes = match proof_stream.pull() {
                    Ok(o) => o,
                    Err(_) => {
                        proof {
                            assert(objs.len() <= pos + 3);
                            assert(!self.query_check_ok(objs, k, top, rr as int, s2 as int));
                            self.lemma_check_refutes(objs, k, top, rr as int, s2 as int);
                        }
                        return false;
                    },
                };
                let pc = match Self::bytes_to_path(&pc_bytes) {
                    Some(p) => p,
                    None => {
                        proof {
                            assert(pc_bytes@ == objs[pos + 3]);
                            assert(!self.query_check_ok(objs, k, top, rr as int, s2 as int));
                            self.lemma_check_refutes(objs, k, top, rr as int, s2 as int);
                        }
                        return false;
                    },
                };
                proof {
                    assert(pa_bytes@ == objs[pos + 1]);
                    assert(pb_bytes@ == objs[pos + 2]);
                    assert(pc_bytes@ == objs[pos + 3]);
                    assert(byte_views(pa@) =~= chunks32(objs[pos + 1]));
                    assert(byte_views(pb@) =~= chunks32(objs[pos + 2]));
                    assert(byte_views(pc@) =~= chunks32(objs[pos + 3]));
                }
                let ay = vals[0];
                let by = vals[1];
                let cy = vals[2];
                proof {
                    assert(ay@ == parse_elements(objs[pos])[0]);
                    assert(by@ == parse_elements(objs[pos])[1]);
                    assert(cy@ == parse_elements(objs[pos])[2]);
                }
                let bytes_a = ay.to_bytes();
                let leaf_a = blake2s_digest(&bytes_a);
                let bytes_b = by.to_bytes();
                let leaf_b = blake2s_digest(&bytes_b);
                let bytes_c = cy.to_bytes();
                let leaf_c = blake2s_digest(&bytes_c);
                if !Merkle::verify_(&roots[rr], c, &pa, &leaf_a) {
                    proof {
                        assert(roots@[rr as int]@ == objs[k + rr]);
                        assert(!self.query_check_ok(objs, k, top, rr as int, s2 as int));
                        self.lemma_check_refutes(objs, k, top, rr as int, s2 as int);
                    }
                    return false;
                }
                if !Merkle::verify_(&roots[rr], b_idx, &pb, &leaf_b) {
                    proof {
                        assert(roots@[rr as int]@ == objs[k + rr]);
                        assert(!self.query_check_ok(objs, k, top, rr as int, s2 as int));
                        self.lemma_check_refutes(objs, k, top, rr as int, s2 as int);
                    }
                    return false;
                }
                if !Merkle::verify_(&roots[rr + 1], c, &pc, &leaf_c) {
                    proof {
                        assert(roots@[rr as int + 1]@ == objs[k + rr + 1]);
                        assert(!self.query_check_ok(objs, k, top, rr as int, s2 as int));
                        self.lemma_check_refutes(objs, k, top, rr as int, s2 as int);
                    }
                    return false;
                }
                // the three points must be colinear under this round's challenge
                let alpha = alphas[rr];
                let ax = offset_r.mul(omega_r.pow(c as u128));
                let bx = offset_r.mul(omega_r.pow(b_idx as u128));
                if ax.value() == bx.value() || ax.value() == alpha.value() || bx.value()
                    == alpha.value() {
                    proof {
                        assert(alphas@[rr as int]@ == challenge_of(objs.take(k + rr + 1)));
                        assert(!self.query_check_ok(objs, k, top, rr as int, s2 as int));
                        self.lemma_check_refutes(objs, k, top, rr as int, s2 as int);
                    }
                    return false;
                }
                let mut dvec: Vec<FieldElement> = Vec::new();
                dvec.push(ax);
                dvec.push(bx);
                dvec.push(alpha);
                let mut vvec: Vec<FieldElement> = Vec::new();
                vvec.push(ay);
                vvec.push(by);
                vvec.push(cy);
                proof {
                    assert(views(dvec@) =~= seq![ax@, bx@, alpha@]);
                    assert(views(vvec@) =~= seq![ay@, by@, cy@]);
                    assert forall|x: int, y: int|
                        0 <= x < y < dvec@.len() implies views(dvec@)[x] != views(dvec@)[y] by {
                        assert(views(dvec@)[x] == dvec@[x]@);
                        assert(views(dvec@)[y] == dvec@[y]@);
                    }
                }
                if !crate::polynomial::Polynomial::test_colinearity(&dvec, &vvec) {
                    proof {
                        assert(!self.query_check_ok(objs, k, top, rr as int, s2 as int));
                        self.lemma_check_refutes(objs, k, top, rr as int, s2 as int);
                    }
                    return false;
                }
                proof {
                    assert(self.query_check_ok(objs, k, top, rr as int, s2 as int));
                    assert(4 * (rr as int * ll + s2 as int) + 4 == 4 * (rr as int * ll + (s2 as int
                        + 1)));
                }
                s2 = s2 + 1;
            }
            let ghost rr0 = rr as int;
            omega_r = omega_r.mul(omega_r);
            offset_r = offset_r.mul(offset_r);
            cur_len = cur_half;
            rr = rr + 1;
            proof {
                let p = FIELD_PRIME as int;
                lemma_pow2_unfold((rr0 + 1) as nat);
                lemma_mul_mod_noop_general(
                    pow(self.omega as int, pow2(rr0 as nat)),
                    pow(self.omega as int, pow2(rr0 as nat)),
                    p,
                );
                lemma_pow_adds(self.omega as int, pow2(rr0 as nat), pow2(rr0 as nat));
                lemma_mul_mod_noop_general(
                    pow(self.offset as int, pow2(rr0 as nat)),
                    pow(self.offset as int, pow2(rr0 as nat)),
                    p,
                );
                lemma_pow_adds(self.offset as int, pow2(rr0 as nat), pow2(rr0 as nat));
                assert(rr0 * ll + ll == (rr0 + 1) * ll) by (nonlinear_arith);
            }
        }
        proof {
            assert(rr as int == self.rounds() - 1);
            assert(self.verify_spec(objs, k));
        }
        true
    }

    /// Flattens an authentication path into one transcript object: the
    /// 32-byte digests, concatenated leaf-to-root.
    fn path_to_bytes(path: &Vec<Vec<u8>>) -> (r: Vec<u8>)
        ensures
            r@ == path_bytes_spec(byte_views(path@)),
    {
        let mut out: Vec<u8> = Vec::new();
        let mut i: usize = 0;
        proof {
            assert(path_bytes_spec(byte_views(path@).take(0)) =~= Seq::<u8>::empty());
        }
        while i < path.len()
            invariant
                i <= path@.len(),
                out@ == path_bytes_spec(byte_views(path@).take(i as int)),
            decreases path@.len() - i,
        {
            append_bytes(&mut out, &path[i]);
            proof {
                let bv = byte_views(path@);
                assert(bv.take(i as int + 1).drop_last() =~= bv.take(i as int));
                assert(bv.take(i as int + 1).last() == bv[i as int]);
            }
            i = i + 1;
        }
        proof {
            assert(byte_views(path@).take(path@.len() as int) =~= byte_views(path@));
        }
        out
    }
}

/// The objects the query phase pushes for one index: the value triple, then
/// the three flattened authentication paths.
pub open spec fn query_objects_for(cw: Seq<int>, nx: Seq<int>, a: int) -> Seq<Seq<u8>> {
    let b = cw.len() as int / 2 + a;
    seq![
        ser_elements(seq![cw[a], cw[b], nx[a]]),
        path_bytes_spec(merkle_open_spec(leaf_digests_spec(cw), a)),
        path_bytes_spec(merkle_open_spec(leaf_digests_spec(cw), b)),
        path_bytes_spec(merkle_open_spec(leaf_digests_spec(nx), a)),
    ]
}

/// The objects the query phase pushes for a whole index list, in order.
pub open spec fn query_objects_spec(cw: Seq<int>, nx: Seq<int>, indices: Seq<usize>) -> Seq<
    Seq<u8>,
>
    decreases indices.len(),
{
    if indices.len() == 0 {
        Seq::empty()
    } else {
        query_objects_spec(cw, nx, indices.drop_last()) + query_objects_for(
            cw,
            nx,
            indices.last() as int,
        )
    }
}

/// An authentication path flattened to bytes, digest after digest.
pub open spec fn path_bytes_spec(path: Seq<Seq<u8>>) -> Seq<u8>
    decreases path.len(),
{
    if path.len() == 0 {
        Seq::empty()
    } else {
        path_bytes_spec(path.drop_last()) + path.last()
    }
}

/// A round's codeword keeps at least two values and room for the tests as
/// long as rounds remain: the working length at round `i` still exceeds the
/// expansion factor.
pub proof fn lemma_round_length(length: int, ef: int, tests: int, i: int)
    requires
        0 <= i < num_rounds_spec(length, ef, tests),
    ensures
        num_rounds_spec(length / (pow2(i as nat) as int), ef, tests) == num_rounds_spec(
            length,
            ef,
            tests,
        ) - i,
        length / (pow2(i as nat) as int) >= 2,
        length / (pow2(i as nat) as int) > ef,
        4 * tests < length / (pow2(i as nat) as int),
    decreases i,
{
    lemma2_to64();
    if i == 0 {
        lemma_div_basics(length);
        assert(num_rounds_spec(length, ef, tests) >= 1);
        assert(length >= 2 && length > ef && 4 * tests < length);
    } else {
        lemma_round_length(length, ef, tests, i - 1);
        let li = length / (pow2((i - 1) as nat) as int);
        assert(li >= 2 && li > ef && 4 * tests < li);
        assert(num_rounds_spec(li, ef, tests) == 1 + num_rounds_spec(li / 2, ef, tests));
        lemma_pow2_pos((i - 1) as nat);
        lemma_pow2_unfold(i as nat);
        lemma_div_denominator(length, pow2((i - 1) as nat) as int, 2);
        assert(length / (pow2(i as nat) as int) == li / 2);
        assert(num_rounds_spec(li / 2, ef, tests) == num_rounds_spec(length, ef, tests) - i);
        assert(num_rounds_spec(li / 2, ef, tests) >= 1);
        assert(li / 2 >= 2 && li / 2 > ef && 4 * tests < li / 2);
    }
}

} // verus!
