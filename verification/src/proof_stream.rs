use vstd::prelude::*;
use vstd::arithmetic::div_mod::*;
use vstd::arithmetic::power2::*;
use crate::errors::StreamError;
use crate::field::append_bytes;
use crate::field::le_byte;
use crate::merkle_tree::byte_views;

verus! {

/// What the 256-bit sha3 digest of a byte string is; a function of the input
/// bytes alone.
pub uninterp spec fn sha3_of(bytes: Seq<u8>) -> Seq<u8>;

/// Relies on sha3's `Sha3_256` (through the digest crate's
/// `Digest::digest`): the output is a 32-byte digest that depends on the
/// input bytes alone.
#[verifier::external_body]
fn sha3_digest(input: &Vec<u8>) -> (r: Vec<u8>)
    ensures
        r@ == sha3_of(input@),
        r@.len() == 32,
{
    <sha3::Sha3_256 as sha3::Digest>::digest(input.as_slice()).to_vec()
}

/// The 8-byte little-endian serialization of an object's length.
pub open spec fn len_bytes8(n: int) -> Seq<u8> {
    Seq::new(8, |i: int| le_byte(n, i))
}

/// The byte serialization of a list of objects: each object is preceded by
/// its 8-byte little-endian length, so the encoding is prefix-free and two
/// object lists serialize alike only when they are alike.
pub open spec fn ser_objects(objs: Seq<Seq<u8>>) -> Seq<u8>
    decreases objs.len(),
{
    if objs.len() == 0 {
        Seq::empty()
    } else {
        ser_objects(objs.drop_last()) + len_bytes8(objs.last().len() as int) + objs.last()
    }
}

/// The 8-byte little-endian serialization of a length.
pub(crate) fn u64_le_bytes(n: u64) -> (r: Vec<u8>)
    ensures
        r@ == len_bytes8(n as int),
{
    let mut x = n;
    let mut r: Vec<u8> = Vec::new();
    let mut i: usize = 0;
    proof {
        lemma2_to64();
        lemma_div_basics(n as int);
    }
    while i < 8
        invariant
            i <= 8,
            x as int == n as int / (pow2((8 * i) as nat) as int),
            r@.len() == i,
            forall|t: int| 0 <= t < i ==> r@[t] == le_byte(n as int, t),
        decreases 8 - i,
    {
        r.push((x % 256) as u8);
        x = x / 256;
        proof {
            lemma2_to64();
            lemma_pow2_pos((8 * i) as nat);
            lemma_div_denominator(n as int, pow2((8 * i) as nat) as int, 256);
            lemma_pow2_adds((8 * i) as nat, 8);
            assert(pow2(8) == 256);
        }
        i = i + 1;
    }
    proof {
        assert(r@ =~= len_bytes8(n as int));
    }
    r
}

/// The serialization of the first `upto` objects, in push order.
fn serialize_prefix(objs: &Vec<Vec<u8>>, upto: usize) -> (r: Vec<u8>)
    requires
        upto <= objs@.len(),
    ensures
        r@ == ser_objects(byte_views(objs@).take(upto as int)),
{
    let mut out: Vec<u8> = Vec::new();
    let mut i: usize = 0;
    proof {
        assert(byte_views(objs@).take(0) =~= Seq::<Seq<u8>>::empty());
    }
    while i < upto
        invariant
            i <= upto,
            upto <= objs@.len(),
            out@ == ser_objects(byte_views(objs@).take(i as int)),
        decreases upto - i,
    {
        let ghost out0 = out@;
        let lb = u64_le_bytes(objs[i].len() as u64);
        append_bytes(&mut out, &lb);
        append_bytes(&mut out, &objs[i]);
        proof {
            let bv = byte_views(objs@);
            assert(bv.take(i as int + 1).drop_last() =~= bv.take(i as int));
            assert(bv.take(i as int + 1).last() == bv[i as int]);
            assert((out0 + lb@) + objs@[i as int]@ =~= out0 + len_bytes8(
                objs@[i as int]@.len() as int,
            ) + objs@[i as int]@);
        }
        i = i + 1;
    }
    out
}

/// The Fiat-Shamir proof stream: an ordered, append-only log of opaque byte
/// objects, with a verifier-side read cursor. Challenges on either side are
/// digests of the serialized log prefix that side has observed, so both
/// sides derive identical randomness exactly when they have observed the
/// same objects.
#[derive(Debug)]
pub struct ProofStream {
    objects: Vec<Vec<u8>>,
    read_index: usize,
}

impl ProofStream {
    #[verifier::type_invariant]
    spec fn wf(self) -> bool {
        self.read_index <= self.objects@.len()
    }

    /// The objects pushed so far, in push order.
    pub closed spec fn objects_view(self) -> Seq<Seq<u8>> {
        byte_views(self.objects@)
    }

    /// How many objects the verifier side has read.
    pub closed spec fn read_index_view(self) -> int {
        self.read_index as int
    }

    /// An empty stream with the read cursor at the start.
    pub fn new() -> (r: Self)
        ensures
            r.objects_view() == Seq::<Seq<u8>>::empty(),
            r.read_index_view() == 0,
    {
        let r = ProofStream { objects: Vec::new(), read_index: 0 };
        proof {
            assert(r.objects_view() =~= Seq::<Seq<u8>>::empty());
        }
        r
    }

    /// The number of objects pushed so far.
    pub fn len(&self) -> (r: usize)
        ensures
            r as int == self.objects_view().len(),
    {
        self.objects.len()
    }

    /// The read cursor's position.
    pub fn read_index(&self) -> (r: usize)
        ensures
            r as int == self.read_index_view(),
    {
        self.read_index
    }

    /// Appends one object to the log; the growth is irreversible and the
    /// read cursor does not move.
    pub fn push(&mut self, obj: Vec<u8>)
        ensures
            final(self).objects_view() == old(self).objects_view().push(obj@),
            final(self).read_index_view() == old(self).read_index_view(),
    {
        proof {
            use_type_invariant(&*self);
        }
        let mut tmp = ProofStream { objects: Vec::new(), read_index: 0 };
        core::mem::swap(self, &mut tmp);
        let ProofStream { mut objects, read_index } = tmp;
        objects.push(obj);
        let mut replacement = ProofStream { objects, read_index };
        core::mem::swap(self, &mut replacement);
        proof {
            assert(self.objects_view() =~= old(self).objects_view().push(obj@));
        }
    }

    /// Returns the next unread object and advances the read cursor; fails
    /// exactly when every pushed object was already read.
    pub fn pull(&mut self) -> (r: Result<Vec<u8>, StreamError>)
        ensures
            (r matches Ok(_)) <==> old(self).read_index_view() < old(self).objects_view().len(),
            r matches Ok(o) ==> o@ == old(self).objects_view()[old(self).read_index_view()]
                && final(self).read_index_view() == old(self).read_index_view() + 1,
            r matches Err(e) ==> e == StreamError::TranscriptExhausted && *final(self)
                == *old(self),
            final(self).objects_view() == old(self).objects_view(),
            r matches Ok(_) ==> final(self).read_index_view() == old(self).read_index_view() + 1,
    {
        proof {
            use_type_invariant(&*self);
        }
        if self.read_index >= self.objects.len() {
            return Err(StreamError::TranscriptExhausted);
        }
        let mut obj: Vec<u8> = Vec::new();
        append_bytes(&mut obj, &self.objects[self.read_index]);
        self.read_index = self.read_index + 1;
        Ok(obj)
    }

    /// The prover's challenge: the digest of the serialization of every
    /// object pushed so far.
    pub fn prover_fiat_shamir(&self) -> (r: Vec<u8>)
        ensures
            r@ == sha3_of(ser_objects(self.objects_view())),
            r@.len() == 32,
    {
        let ser = serialize_prefix(&self.objects, self.objects.len());
        proof {
            assert(byte_views(self.objects@).take(self.objects@.len() as int) =~= byte_views(
                self.objects@,
            ));
        }
        sha3_digest(&ser)
    }

    /// The verifier's challenge: the digest of the serialization of every
    /// object read so far. It equals the prover's challenge at the point
    /// where the prover had pushed exactly the objects read here.
    pub fn verifier_fiat_shamir(&self) -> (r: Vec<u8>)
        ensures
            r@ == sha3_of(
                ser_objects(self.objects_view().take(self.read_index_view())),
            ),
            r@.len() == 32,
    {
        proof {
            use_type_invariant(self);
        }
        let ser = serialize_prefix(&self.objects, self.read_index);
        sha3_digest(&ser)
    }
}

/// Fiat-Shamir agreement: a verifier-side challenge depends only on the
/// objects before the read cursor, never on what the prover appends later.
/// So when the verifier has pulled exactly the objects the prover had
/// pushed at some point, its challenge digest equals the prover's challenge
/// digest at that point — for every prefix length.
pub proof fn lemma_fiat_shamir_agreement(prover: ProofStream, verifier: ProofStream)
    requires
        prover.read_index_view() == verifier.read_index_view(),
        prover.read_index_view() <= prover.objects_view().len(),
        prover.objects_view().is_prefix_of(verifier.objects_view()),
    ensures
        sha3_of(ser_objects(prover.objects_view().take(prover.read_index_view()))) == sha3_of(
            ser_objects(verifier.objects_view().take(verifier.read_index_view())),
        ),
{
    let k = prover.read_index_view();
    assert(prover.objects_view().take(k) =~= verifier.objects_view().take(k));
}

/// A 32-byte challenge digest carried as an opaque value.
#[derive(Debug)]
pub struct Challenge {
    bytes: Vec<u8>,
}

impl View for Challenge {
    type V = Seq<u8>;

    closed spec fn view(&self) -> Seq<u8> {
        self.bytes@
    }
}

impl Challenge {
    /// Wraps a digest.
    pub fn new(bytes: Vec<u8>) -> (r: Self)
        ensures
            r@ == bytes@,
    {
        Challenge { bytes }
    }

    /// The digest bytes.
    pub fn as_bytes(&self) -> (r: &Vec<u8>)
        ensures
            r@ == self@,
    {
        &self.bytes
    }
}

} // verus!
