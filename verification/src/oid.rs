//! Commit identifiers and the codec between identifiers and vertex names.
//!
//! A commit identifier (oid) is exactly [`OID_LEN`] bytes. The all-zero
//! sequence is a reserved sentinel meaning "no such commit"; every real
//! commit reference is non-zero. A vertex name is an arbitrary byte string;
//! the codec maps oids to vertex names byte for byte and back.

use vstd::prelude::*;

use crate::error::DagError;

verus! {

/// Number of bytes in a commit identifier.
pub const OID_LEN: usize = 20;

/// Whether `s` has the length of an oid and consists entirely of zero bytes:
/// the reserved "no such commit" sentinel.
pub open spec fn is_zero_oid_seq(s: Seq<u8>) -> bool {
    s.len() == OID_LEN && forall|i: int| 0 <= i < s.len() ==> s[i] == 0u8
}

/// Whether `s` is a valid non-zero oid: correct length, at least one
/// non-zero byte.
pub open spec fn valid_oid_seq(s: Seq<u8>) -> bool {
    s.len() == OID_LEN && exists|i: int| 0 <= i < s.len() && s[i] != 0u8
}

/// Compare two byte vectors for equality.
pub fn bytes_eq(a: &Vec<u8>, b: &Vec<u8>) -> (r: bool)
    ensures
        r <==> a@ == b@,
{
    if a.len() != b.len() {
        proof {
            assert(a@.len() != b@.len());
        }
        return false;
    }
    let n = a.len();
    let mut i: usize = 0;
    while i < n
        invariant
            n == a@.len() && n == b@.len(),
            0 <= i <= n,
            forall|j: int| 0 <= j < i ==> a@[j] == b@[j],
        decreases n - i,
    {
        if a[i] != b[i] {
            return false;
        }
        i += 1;
    }
    proof {
        assert(a@ =~= b@);
    }
    true
}

/// A non-zero commit identifier: [`OID_LEN`] bytes, not all zero.
#[derive(Debug)]
pub struct NonZeroOid {
    bytes: Vec<u8>,
}

impl View for NonZeroOid {
    type V = Seq<u8>;

    closed spec fn view(&self) -> Seq<u8> {
        self.bytes@
    }
}

impl NonZeroOid {
    /// The identifier is well-formed: valid length and not the zero sentinel.
    pub open spec fn wf(&self) -> bool {
        valid_oid_seq(self@)
    }

    /// Parse an identifier from raw bytes. Rejects a wrong length with
    /// [`DagError::Codec`] and the zero sentinel with
    /// [`DagError::UnexpectedZeroOid`].
    pub fn from_bytes(bytes: Vec<u8>) -> (r: Result<NonZeroOid, DagError>)
        ensures
            r is Ok <==> valid_oid_seq(bytes@),
            (match r {
                Ok(o) => o@ == bytes@ && o.wf(),
                Err(DagError::Codec) => bytes@.len() != OID_LEN,
                Err(DagError::UnexpectedZeroOid) => is_zero_oid_seq(bytes@),
                Err(_) => false,
            }),
    {
        if bytes.len() != OID_LEN {
            return Err(DagError::Codec);
        }
        let mut i: usize = 0;
        while i < OID_LEN
            invariant
                bytes@.len() == OID_LEN,
                0 <= i <= OID_LEN,
                forall|j: int| 0 <= j < i ==> bytes@[j] == 0u8,
            decreases OID_LEN - i,
        {
            if bytes[i] != 0 {
                return Ok(NonZeroOid { bytes });
            }
            i += 1;
        }
        Err(DagError::UnexpectedZeroOid)
    }

    /// The raw bytes of the identifier.
    pub fn as_bytes(&self) -> (r: &Vec<u8>)
        ensures
            r@ == self@,
    {
        &self.bytes
    }

    /// An owned copy of this identifier.
    pub fn duplicate(&self) -> (r: NonZeroOid)
        ensures
            r@ == self@,
    {
        NonZeroOid { bytes: copy_bytes(&self.bytes) }
    }
}

impl PartialEq for NonZeroOid {
    fn eq(&self, other: &NonZeroOid) -> (r: bool) {
        bytes_eq(&self.bytes, &other.bytes)
    }
}

impl vstd::std_specs::cmp::PartialEqSpecImpl for NonZeroOid {
    open spec fn obeys_eq_spec() -> bool {
        true
    }

    open spec fn eq_spec(&self, other: &NonZeroOid) -> bool {
        self@ == other@
    }
}

/// Copy a byte vector.
pub fn copy_bytes(bytes: &Vec<u8>) -> (r: Vec<u8>)
    ensures
        r@ == bytes@,
{
    let mut r: Vec<u8> = Vec::new();
    let n = bytes.len();
    let mut i: usize = 0;
    while i < n
        invariant
            n == bytes@.len(),
            0 <= i <= n,
            r@ == bytes@.take(i as int),
        decreases n - i,
    {
        r.push(bytes[i]);
        proof {
            assert(r@ =~= bytes@.take(i + 1 as int));
        }
        i += 1;
    }
    proof {
        assert(bytes@.take(n as int) =~= bytes@);
    }
    r
}

/// A commit identifier that may be the zero sentinel.
#[derive(Debug)]
pub enum MaybeZeroOid {
    /// The reserved all-zero sentinel.
    Zero,
    /// A real, non-zero commit identifier.
    NonZero(NonZeroOid),
}

impl View for MaybeZeroOid {
    type V = Seq<u8>;

    open spec fn view(&self) -> Seq<u8> {
        match self {
            MaybeZeroOid::Zero => Seq::new(OID_LEN as nat, |i: int| 0u8),
            MaybeZeroOid::NonZero(o) => o@,
        }
    }
}

impl MaybeZeroOid {
    /// Well-formed: the zero sentinel, or a well-formed non-zero oid.
    pub open spec fn wf(&self) -> bool {
        match self {
            MaybeZeroOid::Zero => true,
            MaybeZeroOid::NonZero(o) => o.wf(),
        }
    }

    /// Parse an identifier, zero or not, from raw bytes. Only a wrong length
    /// is rejected.
    pub fn from_bytes(bytes: Vec<u8>) -> (r: Result<MaybeZeroOid, DagError>)
        ensures
            r is Ok <==> bytes@.len() == OID_LEN,
            (match r {
                Ok(m) => m@ == bytes@ && m.wf() && (m is Zero <==> is_zero_oid_seq(bytes@)),
                Err(e) => e == DagError::Codec,
            }),
    {
        if bytes.len() != OID_LEN {
            return Err(DagError::Codec);
        }
        match NonZeroOid::from_bytes(bytes) {
            Ok(o) => Ok(MaybeZeroOid::NonZero(o)),
            Err(DagError::UnexpectedZeroOid) => {
                proof {
                    assert(MaybeZeroOid::Zero@ =~= Seq::new(OID_LEN as nat, |i: int| 0u8));
                }
                Ok(MaybeZeroOid::Zero)
            },
            Err(e) => Err(e),
        }
    }
}

/// A vertex name: the opaque byte string by which the graph knows a commit.
/// Byte-equal to the oid it encodes. A vertex made by explicit construction
/// may hold any bytes, including the zero sentinel or malformed content.
#[derive(Debug)]
pub struct CommitVertex {
    bytes: Vec<u8>,
}

impl View for CommitVertex {
    type V = Seq<u8>;

    closed spec fn view(&self) -> Seq<u8> {
        self.bytes@
    }
}

impl CommitVertex {
    /// Explicitly construct a vertex from arbitrary bytes.
    pub fn copy_from(bytes: &Vec<u8>) -> (v: CommitVertex)
        ensures
            v@ == bytes@,
    {
        CommitVertex { bytes: copy_bytes(bytes) }
    }

    /// Encode a non-zero oid as a vertex name: the raw bytes, unchanged.
    pub fn from_oid(oid: &NonZeroOid) -> (v: CommitVertex)
        ensures
            v@ == oid@,
    {
        CommitVertex { bytes: copy_bytes(oid.as_bytes()) }
    }

    /// The raw bytes of the vertex name.
    pub fn as_bytes(&self) -> (r: &Vec<u8>)
        ensures
            r@ == self@,
    {
        &self.bytes
    }

    /// An owned copy of this vertex name.
    pub fn duplicate(&self) -> (r: CommitVertex)
        ensures
            r@ == self@,
    {
        CommitVertex { bytes: copy_bytes(&self.bytes) }
    }
}

/// Decode a vertex name as an oid, zero or not. Fails with
/// [`DagError::Codec`] when the byte length is wrong.
pub fn vertex_to_maybe_zero_oid(v: &CommitVertex) -> (r: Result<MaybeZeroOid, DagError>)
    ensures
        r is Ok <==> v@.len() == OID_LEN,
        (match r {
            Ok(m) => m@ == v@ && m.wf() && (m is Zero <==> is_zero_oid_seq(v@)),
            Err(e) => e == DagError::Codec,
        }),
{
    MaybeZeroOid::from_bytes(copy_bytes(v.as_bytes()))
}

/// Decode a vertex name as a non-zero oid. Fails with [`DagError::Codec`]
/// when the byte length is wrong, and with [`DagError::UnexpectedZeroOid`]
/// on the zero sentinel.
pub fn vertex_to_nonzero_oid(v: &CommitVertex) -> (r: Result<NonZeroOid, DagError>)
    ensures
        r is Ok <==> valid_oid_seq(v@),
        (match r {
            Ok(o) => o@ == v@ && o.wf(),
            Err(DagError::Codec) => v@.len() != OID_LEN,
            Err(DagError::UnexpectedZeroOid) => is_zero_oid_seq(v@),
            Err(_) => false,
        }),
{
    NonZeroOid::from_bytes(copy_bytes(v.as_bytes()))
}

/// Law: the codec round-trips. For every well-formed non-zero oid `o`, if
/// `v` is the vertex that encodes `o` (as [`CommitVertex::from_oid`]
/// guarantees, `v@ == o@`) and `m` is the decoding of `v` (as
/// [`vertex_to_maybe_zero_oid`] guarantees, `m@ == v@`), then `m` is the
/// non-zero oid with exactly the bytes of `o`.
pub proof fn lemma_codec_round_trip(o: NonZeroOid, v: CommitVertex, m: MaybeZeroOid)
    requires
        o.wf(),
        v@ == o@,
        m@ == v@,
        m.wf(),
    ensures
        m matches MaybeZeroOid::NonZero(back) && back@ == o@,
{
    match m {
        MaybeZeroOid::Zero => {
            let i = choose|i: int| 0 <= i < o@.len() && o@[i] != 0u8;
            assert(m@[i] == 0u8);
        },
        MaybeZeroOid::NonZero(back) => {},
    }
}

} // verus!
