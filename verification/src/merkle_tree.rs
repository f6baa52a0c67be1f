use vstd::prelude::*;
use vstd::arithmetic::div_mod::*;
use vstd::arithmetic::power2::*;

verus! {

/// What the 256-bit blake2s digest of a byte string is; a function of the
/// input bytes alone.
pub uninterp spec fn blake2s_of(bytes: Seq<u8>) -> Seq<u8>;

/// Relies on blake2's `Blake2s256` (through the digest crate's
/// `Digest::digest`): the output is a 32-byte digest that depends on the
/// input bytes alone.
#[verifier::external_body]
pub(crate) fn blake2s_digest(input: &Vec<u8>) -> (r: Vec<u8>)
    ensures
        r@ == blake2s_of(input@),
        r@.len() == 32,
{
    <blake2::Blake2s256 as blake2::Digest>::digest(input.as_slice()).to_vec()
}

/// The byte strings a vector of byte vectors holds.
pub open spec fn byte_views(s: Seq<Vec<u8>>) -> Seq<Seq<u8>> {
    Seq::new(s.len(), |i: int| s[i]@)
}

/// The root of the binary hash tree over the leaves: a single leaf is its own
/// root, and an inner node is the digest of its children's roots, left then
/// right.
pub open spec fn merkle_root_spec(leafs: Seq<Seq<u8>>) -> Seq<u8>
    decreases leafs.len(),
{
    if leafs.len() <= 1 {
        if leafs.len() == 1 {
            leafs[0]
        } else {
            Seq::empty()
        }
    } else {
        blake2s_of(
            merkle_root_spec(leafs.take(leafs.len() as int / 2)) + merkle_root_spec(
                leafs.skip(leafs.len() as int / 2),
            ),
        )
    }
}

/// The authentication path of a leaf, ordered leaf-to-root: the sibling
/// subtree root at each level.
pub open spec fn merkle_open_spec(leafs: Seq<Seq<u8>>, index: int) -> Seq<Seq<u8>>
    decreases leafs.len(),
{
    if leafs.len() <= 1 {
        Seq::empty()
    } else {
        let half = leafs.len() as int / 2;
        if index < half {
            merkle_open_spec(leafs.take(half), index).push(merkle_root_spec(leafs.skip(half)))
        } else {
            merkle_open_spec(leafs.skip(half), index - half).push(
                merkle_root_spec(leafs.take(half)),
            )
        }
    }
}

/// Recomputing the root from a leaf and a path: at each level the current
/// digest is hashed with the path entry, on the side the index bit picks.
pub open spec fn path_fold(leaf: Seq<u8>, index: int, path: Seq<Seq<u8>>) -> Seq<u8>
    decreases path.len(),
{
    if path.len() == 0 {
        leaf
    } else {
        let next = if index % 2 == 0 {
            blake2s_of(leaf + path[0])
        } else {
            blake2s_of(path[0] + leaf)
        };
        path_fold(next, index / 2, path.subrange(1, path.len() as int))
    }
}

/// Binary Merkle commitment: commit to a power-of-two list of 32-byte
/// leaves, open one leaf's authentication path, and verify a path against a
/// root.
pub struct Merkle {}

impl Merkle {
    /// Concatenation of two byte strings.
    pub fn concat(left: &Vec<u8>, right: &Vec<u8>) -> (r: Vec<u8>)
        ensures
            r@ == left@ + right@,
    {
        let mut result: Vec<u8> = Vec::new();
        let mut i: usize = 0;
        while i < left.len()
            invariant
                i <= left.len(),
                result@ == left@.take(i as int),
            decreases left.len() - i,
        {
            result.push(left[i]);
            proof {
                assert(result@ =~= left@.take(i + 1));
            }
            i = i + 1;
        }
        let mut j: usize = 0;
        while j < right.len()
            invariant
                j <= right.len(),
                result@ == left@.take(left@.len() as int) + right@.take(j as int),
            decreases right.len() - j,
        {
            result.push(right[j]);
            proof {
                assert(result@ =~= left@.take(left@.len() as int) + right@.take(j + 1));
            }
            j = j + 1;
        }
        proof {
            assert(left@.take(left@.len() as int) + right@.take(right@.len() as int) =~= left@
                + right@);
        }
        result
    }

    /// A fresh copy of a byte string.
    fn copy_bytes(v: &Vec<u8>) -> (r: Vec<u8>)
        ensures
            r@ == v@,
    {
        let mut result: Vec<u8> = Vec::new();
        let mut i: usize = 0;
        while i < v.len()
            invariant
                i <= v.len(),
                result@ == v@.take(i as int),
            decreases v.len() - i,
        {
            result.push(v[i]);
            proof {
                assert(result@ =~= v@.take(i + 1));
            }
            i = i + 1;
        }
        proof {
            assert(v@.take(v@.len() as int) =~= v@);
        }
        result
    }

    /// Whether two byte strings are equal.
    pub(crate) fn bytes_eq(a: &Vec<u8>, b: &Vec<u8>) -> (r: bool)
        ensures
            r == (a@ == b@),
    {
        if a.len() != b.len() {
            return false;
        }
        let mut i: usize = 0;
        while i < a.len()
            invariant
                i <= a.len(),
                a@.len() == b@.len(),
                forall|t: int| 0 <= t < i ==> a@[t] == b@[t],
            decreases a.len() - i,
        {
            if a[i] != b[i] {
                return false;
            }
            i = i + 1;
        }
        proof {
            assert(a@ =~= b@);
        }
        true
    }

    /// The tree root over the leaves in `[start, end)`; the range's width
    /// must be a power of two.
    fn commit_range(leafs: &Vec<Vec<u8>>, start: usize, end: usize) -> (r: Vec<u8>)
        requires
            start < end <= leafs@.len(),
            exists|m: nat| end - start == pow2(m),
            forall|i: int| start <= i < end ==> (#[trigger] leafs@[i])@.len() == 32,
        ensures
            r@ == merkle_root_spec(byte_views(leafs@).subrange(start as int, end as int)),
            r@.len() == 32,
        decreases end - start,
    {
        let ghost sub = byte_views(leafs@).subrange(start as int, end as int);
        if end - start == 1 {
            let r = Self::copy_bytes(&leafs[start]);
            proof {
                assert(sub.len() == 1);
                assert(sub[0] == leafs@[start as int]@);
            }
            return r;
        }
        proof {
            let m = choose|m: nat| end - start == pow2(m);
            lemma_pow2_pos(m);
            if m == 0 {
                assert(pow2(0) == 1) by {
                    lemma2_to64();
                }
                assert(false);
            }
            lemma_pow2_unfold(m);
            assert(end - start == 2 * pow2((m - 1) as nat));
            assert((end - start) / 2 == pow2((m - 1) as nat));
        }
        let mid = start + (end - start) / 2;
        let left = Self::commit_range(leafs, start, mid);
        let right = Self::commit_range(leafs, mid, end);
        let cat = Self::concat(&left, &right);
        let r = blake2s_digest(&cat);
        proof {
            let half = sub.len() as int / 2;
            assert(sub.take(half) =~= byte_views(leafs@).subrange(start as int, mid as int));
            assert(sub.skip(half) =~= byte_views(leafs@).subrange(mid as int, end as int));
        }
        r
    }

    /// The 32-byte root committing to the whole list of leaves; the leaf
    /// count must be a power of two. Every leaf is itself a 32-byte digest
    /// of the committed datum, so that a single-leaf tree's root — the leaf
    /// itself — is a digest like every other root.
    pub fn commit_(leafs: &Vec<Vec<u8>>) -> (r: Vec<u8>)
        requires
            leafs@.len() >= 1,
            exists|m: nat| leafs@.len() == pow2(m),
            forall|i: int| 0 <= i < leafs@.len() ==> (#[trigger] leafs@[i])@.len() == 32,
        ensures
            r@ == merkle_root_spec(byte_views(leafs@)),
            r@.len() == 32,
    {
        let r = Self::commit_range(leafs, 0, leafs.len());
        proof {
            assert(byte_views(leafs@).subrange(0, leafs@.len() as int) =~= byte_views(leafs@));
        }
        r
    }

    /// The authentication path of the leaf in `[start, end)` at offset
    /// `index`, ordered leaf-to-root.
    fn open_range(leafs: &Vec<Vec<u8>>, start: usize, end: usize, index: usize) -> (r: Vec<
        Vec<u8>,
    >)
        requires
            start < end <= leafs@.len(),
            index < end - start,
            exists|m: nat| end - start == pow2(m),
            forall|i: int| start <= i < end ==> (#[trigger] leafs@[i])@.len() == 32,
        ensures
            byte_views(r@) == merkle_open_spec(
                byte_views(leafs@).subrange(start as int, end as int),
                index as int,
            ),
            forall|t: int| 0 <= t < r@.len() ==> (#[trigger] r@[t])@.len() == 32,
        decreases end - start,
    {
        let ghost sub = byte_views(leafs@).subrange(start as int, end as int);
        if end - start == 1 {
            let r: Vec<Vec<u8>> = Vec::new();
            proof {
                assert(byte_views(r@) =~= merkle_open_spec(sub, index as int));
            }
            return r;
        }
        proof {
            let m = choose|m: nat| end - start == pow2(m);
            lemma_pow2_pos(m);
            if m == 0 {
                assert(pow2(0) == 1) by {
                    lemma2_to64();
                }
                assert(false);
            }
            lemma_pow2_unfold(m);
            assert(end - start == 2 * pow2((m - 1) as nat));
            assert((end - start) / 2 == pow2((m - 1) as nat));
        }
        let half = (end - start) / 2;
        let mid = start + half;
        proof {
            assert(sub.take(half as int) =~= byte_views(leafs@).subrange(start as int, mid as int));
            assert(sub.skip(half as int) =~= byte_views(leafs@).subrange(mid as int, end as int));
        }
        if index < half {
            let mut path = Self::open_range(leafs, start, mid, index);
            let sibling = Self::commit_range(leafs, mid, end);
            let ghost before = path@;
            path.push(sibling);
            proof {
                assert(byte_views(path@) =~= byte_views(before).push(
                    merkle_root_spec(sub.skip(half as int)),
                ));
            }
            path
        } else {
            let mut path = Self::open_range(leafs, mid, end, index - half);
            let sibling = Self::commit_range(leafs, start, mid);
            let ghost before = path@;
            path.push(sibling);
            proof {
                assert(byte_views(path@) =~= byte_views(before).push(
                    merkle_root_spec(sub.take(half as int)),
                ));
            }
            path
        }
    }

    /// The authentication path of leaf `index`, one 32-byte sibling digest
    /// per level, ordered leaf-to-root; the index must be in range.
    pub fn open_(index: usize, leafs: &Vec<Vec<u8>>) -> (r: Vec<Vec<u8>>)
        requires
            leafs@.len() >= 1,
            index < leafs@.len(),
            exists|m: nat| leafs@.len() == pow2(m),
            forall|i: int| 0 <= i < leafs@.len() ==> (#[trigger] leafs@[i])@.len() == 32,
        ensures
            byte_views(r@) == merkle_open_spec(byte_views(leafs@), index as int),
            forall|t: int| 0 <= t < r@.len() ==> (#[trigger] r@[t])@.len() == 32,
    {
        let r = Self::open_range(leafs, 0, leafs.len(), index);
        proof {
            assert(byte_views(leafs@).subrange(0, leafs@.len() as int) =~= byte_views(leafs@));
        }
        r
    }

    /// Recomputes a root from a claimed leaf and path and compares: true
    /// exactly when the index is within the tree the path describes and the
    /// recomputation meets the root. Never panics, whatever the shapes.
    pub fn verify_(root: &Vec<u8>, index: usize, path: &Vec<Vec<u8>>, leaf: &Vec<u8>) -> (r: bool)
        ensures
            r == (index < pow2(path@.len()) && path_fold(leaf@, index as int, byte_views(path@))
                == root@),
    {
        let ghost pv = byte_views(path@);
        let mut cur = Self::copy_bytes(leaf);
        let mut idx = index;
        let mut i: usize = 0;
        proof {
            lemma2_to64();
            lemma_div_basics(index as int);
            assert(pv.skip(0) =~= pv);
        }
        while i < path.len()
            invariant
                i <= path.len(),
                pv == byte_views(path@),
                idx as int == index as int / (pow2(i as nat) as int),
                path_fold(cur@, idx as int, pv.skip(i as int)) == path_fold(leaf@, index as int, pv),
            decreases path.len() - i,
        {
            let ghost cur0 = cur@;
            let ghost idx0 = idx as int;
            let cat = if idx % 2 == 0 {
                Self::concat(&cur, &path[i])
            } else {
                Self::concat(&path[i], &cur)
            };
            cur = blake2s_digest(&cat);
            idx = idx / 2;
            proof {
                let rest = pv.skip(i as int);
                assert(rest[0] == path@[i as int]@);
                assert(rest.subrange(1, rest.len() as int) =~= pv.skip(i + 1));
                lemma_pow2_unfold((i + 1) as nat);
                lemma_pow2_pos(i as nat);
                lemma_div_denominator(index as int, pow2(i as nat) as int, 2);
            }
            i = i + 1;
        }
        proof {
            assert(pv.skip(path@.len() as int) =~= Seq::<Seq<u8>>::empty());
            lemma_pow2_pos(path@.len() as nat);
            if (index as int) < pow2(path@.len() as nat) as int {
                lemma_basic_div_specific_divisor(pow2(path@.len() as nat) as int);
            } else {
                lemma_div_non_zero(index as int, pow2(path@.len() as nat) as int);
            }
        }
        let ok = Self::bytes_eq(&cur, root);
        idx == 0 && ok
    }
}

/// Appending one entry to a path folds it in last, on the side the next
/// index bit picks.
proof fn lemma_path_fold_snoc(leaf: Seq<u8>, index: int, p: Seq<Seq<u8>>, x: Seq<u8>)
    requires
        index >= 0,
    ensures
        path_fold(leaf, index, p.push(x)) == (if (index / (pow2(p.len()) as int)) % 2 == 0 {
            blake2s_of(path_fold(leaf, index, p) + x)
        } else {
            blake2s_of(x + path_fold(leaf, index, p))
        }),
    decreases p.len(),
{
    lemma2_to64();
    if p.len() == 0 {
        assert(p.push(x)[0] == x);
        assert(p.push(x).subrange(1, 1) =~= Seq::<Seq<u8>>::empty());
        lemma_div_basics(index);
        assert(path_fold(leaf, index, p) == leaf);
        assert(path_fold(blake2s_of(leaf + x), index / 2, Seq::<Seq<u8>>::empty()) == blake2s_of(
            leaf + x,
        ));
        assert(path_fold(blake2s_of(x + leaf), index / 2, Seq::<Seq<u8>>::empty()) == blake2s_of(
            x + leaf,
        ));
    } else {
        let next = if index % 2 == 0 {
            blake2s_of(leaf + p[0])
        } else {
            blake2s_of(p[0] + leaf)
        };
        assert(p.push(x)[0] == p[0]);
        assert(p.push(x).subrange(1, p.len() as int + 1) =~= p.subrange(1, p.len() as int).push(x));
        lemma_path_fold_snoc(next, index / 2, p.subrange(1, p.len() as int), x);
        lemma_pow2_pos((p.len() - 1) as nat);
        lemma_pow2_unfold(p.len() as nat);
        lemma_div_denominator(index, 2, pow2((p.len() - 1) as nat) as int);
    }
}

/// The fold reads only as many index bits as the path has entries: congruent
/// indices fold identically.
proof fn lemma_path_fold_congruent(leaf: Seq<u8>, i1: int, i2: int, p: Seq<Seq<u8>>)
    requires
        i1 >= 0,
        i2 >= 0,
        i1 % (pow2(p.len()) as int) == i2 % (pow2(p.len()) as int),
    ensures
        path_fold(leaf, i1, p) == path_fold(leaf, i2, p),
    decreases p.len(),
{
    if p.len() == 0 {
    } else {
        let n = p.len();
        let z = pow2((n - 1) as nat) as int;
        lemma_pow2_unfold(n as nat);
        lemma_pow2_pos((n - 1) as nat);
        assert(pow2(n) as int == 2 * z);
        lemma_mod_mod(i1, 2, z);
        lemma_mod_mod(i2, 2, z);
        assert(i1 % 2 == i2 % 2);
        lemma_mod_breakdown(i1, 2, z);
        lemma_mod_breakdown(i2, 2, z);
        assert((i1 / 2) % z == (i2 / 2) % z);
        let next = if i1 % 2 == 0 {
            blake2s_of(leaf + p[0])
        } else {
            blake2s_of(p[0] + leaf)
        };
        lemma_path_fold_congruent(next, i1 / 2, i2 / 2, p.subrange(1, n as int));
    }
}

/// Merkle round trip: opening any leaf of a power-of-two tree and folding
/// the path back together reproduces the committed root, so verification of
/// an honest opening always succeeds.
pub proof fn lemma_merkle_round_trip(leafs: Seq<Seq<u8>>, index: int)
    requires
        leafs.len() >= 1,
        exists|m: nat| leafs.len() == pow2(m),
        0 <= index < leafs.len(),
    ensures
        pow2(merkle_open_spec(leafs, index).len()) == leafs.len(),
        path_fold(leafs[index], index, merkle_open_spec(leafs, index)) == merkle_root_spec(leafs),
    decreases leafs.len(),
{
    lemma2_to64();
    if leafs.len() == 1 {
    } else {
        let m = choose|m: nat| leafs.len() == pow2(m);
        lemma_pow2_pos(m);
        if m == 0 {
            assert(false);
        }
        lemma_pow2_unfold(m);
        let half = leafs.len() as int / 2;
        assert(leafs.len() == 2 * pow2((m - 1) as nat));
        assert(half == pow2((m - 1) as nat));
        let left = leafs.take(half);
        let right = leafs.skip(half);
        assert(left.len() == pow2((m - 1) as nat));
        assert(right.len() == pow2((m - 1) as nat));
        if index < half {
            lemma_merkle_round_trip(left, index);
            let p = merkle_open_spec(left, index);
            lemma_path_fold_snoc(left[index], index, p, merkle_root_spec(right));
            lemma_pow2_pos(p.len());
            lemma_basic_div(index, pow2(p.len()) as int);
            assert(left[index] == leafs[index]);
            lemma_pow2_unfold((p.len() + 1) as nat);
        } else {
            lemma_merkle_round_trip(right, index - half);
            let p = merkle_open_spec(right, index - half);
            assert(right[index - half] == leafs[index]);
            lemma_small_mod((index - half) as nat, half as nat);
            lemma_mod_sub_multiples_vanish(index, half);
            assert((index - half) % (pow2(p.len()) as int) == index % (pow2(p.len()) as int));
            lemma_path_fold_congruent(leafs[index], index, index - half, p);
            lemma_path_fold_snoc(leafs[index], index, p, merkle_root_spec(left));
            lemma_fundamental_div_mod_converse(index, half, 1, index - half);
            assert(index / (pow2(p.len()) as int) == 1);
            lemma_pow2_unfold((p.len() + 1) as nat);
        }
    }
}

} // verus!
