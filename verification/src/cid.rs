//! Content identifiers (CIDs) and multihashes: their binary encoding and the
//! parser that reads them back out of a byte stream.
use vstd::prelude::*;
use crate::varint::{varint_encode, varint_decode, lemma_varint_roundtrip, encode_varint, write_varint, required_space, read_varint};

verus! {

/// Multicodec code of the identity "hash" (the digest is the data itself).
pub const IDENTITY_CODE: u64 = 0x00;
/// Multicodec code of SHA2-256.
pub const SHA_256_CODE: u64 = 0x12;
/// Multicodec code of SHA2-512.
pub const SHA_512_CODE: u64 = 0x13;
/// Multicodec code of raw binary data.
pub const RAW_CODE: u64 = 0x55;
/// Multicodec code of DAG-PB (MerkleDAG protobuf) data.
pub const DAG_PB_CODE: u64 = 0x70;
/// Largest digest a CID of this library carries.
pub const MAX_DIGEST_SIZE: u64 = 64;

/// A multihash: the code of a hash function and the digest it produced.
#[derive(Debug)]
pub struct Multihash {
    pub code: u64,
    pub digest: Vec<u8>,
}

/// The mathematical value of a [`Multihash`].
pub struct MultihashModel {
    pub code: u64,
    pub digest: Seq<u8>,
}

impl View for Multihash {
    type V = MultihashModel;

    open spec fn view(&self) -> MultihashModel {
        MultihashModel { code: self.code, digest: self.digest@ }
    }
}

/// CID version.
#[derive(PartialEq, Eq, Structural, Clone, Copy, Debug)]
pub enum CidVersion {
    V0,
    V1,
}

/// A content identifier.
#[derive(Debug)]
pub struct Cid {
    pub version: CidVersion,
    pub codec: u64,
    pub hash: Multihash,
}

/// The mathematical value of a [`Cid`].
pub struct CidModel {
    pub version: CidVersion,
    pub codec: u64,
    pub hash: MultihashModel,
}

impl View for Cid {
    type V = CidModel;

    open spec fn view(&self) -> CidModel {
        CidModel { version: self.version, codec: self.codec, hash: self.hash@ }
    }
}

/// Errors of the CID and multihash readers.
#[derive(PartialEq, Eq, Structural, Clone, Copy, Debug)]
pub enum CidError {
    /// A varint was missing, unterminated or too large for 64 bits.
    VarIntDecode,
    /// The input ended inside a CIDv0 digest.
    UnexpectedEof,
    /// The multihash was malformed: too large a digest or a truncated one.
    ParsingError,
    /// The version is neither 0 nor 1.
    InvalidCidVersion,
    /// A CIDv0 was written with an explicit version prefix.
    InvalidExplicitCidV0,
}

/// The default CID: version 1, codec 0 and an empty identity multihash.
pub open spec fn placeholder_model() -> CidModel {
    CidModel { version: CidVersion::V1, codec: 0, hash: MultihashModel { code: 0, digest: Seq::empty() } }
}

/// A multihash fits the CIDs of this library: its digest holds at most 64 bytes.
pub open spec fn multihash_wf(m: MultihashModel) -> bool {
    m.digest.len() <= MAX_DIGEST_SIZE
}

/// A well-formed CID: a CIDv0 is a DAG-PB SHA2-256 link with a 32-byte digest.
pub open spec fn cid_wf(c: CidModel) -> bool {
    &&& multihash_wf(c.hash)
    &&& c.version == CidVersion::V0 ==> (c.codec == DAG_PB_CODE && c.hash.code == SHA_256_CODE
        && c.hash.digest.len() == 32)
}

/// Binary encoding of a multihash: code, digest length, digest.
pub open spec fn multihash_bytes(m: MultihashModel) -> Seq<u8> {
    varint_encode(m.code as nat) + varint_encode(m.digest.len()) + m.digest
}

/// Binary encoding of a CID: a CIDv0 is its bare multihash; a CIDv1 is
/// prefixed with its version and codec.
pub open spec fn cid_bytes(c: CidModel) -> Seq<u8> {
    match c.version {
        CidVersion::V0 => multihash_bytes(c.hash),
        CidVersion::V1 => varint_encode(1) + varint_encode(c.codec as nat) + multihash_bytes(c.hash),
    }
}

/// Reads a multihash whose digest may hold at most `max` bytes from the front
/// of `s`; on success, also the number of bytes read.
pub open spec fn spec_read_multihash(s: Seq<u8>, max: nat) -> Result<(MultihashModel, nat), CidError> {
    match varint_decode(s) {
        None => Err(CidError::VarIntDecode),
        Some((code, n1)) => match varint_decode(s.skip(n1 as int)) {
            None => Err(CidError::VarIntDecode),
            Some((size, n2)) => if size > max || size > 255 {
                Err(CidError::ParsingError)
            } else if n1 + n2 + size > s.len() {
                Err(CidError::ParsingError)
            } else {
                Ok((
                    MultihashModel {
                        code,
                        digest: s.subrange((n1 + n2) as int, (n1 + n2 + size) as int),
                    },
                    (n1 + n2 + size) as nat,
                ))
            },
        },
    }
}

/// Reads a CID from the front of `s`; on success, also the number of bytes read.
///
/// The first two varints are the version and the codec, except for a CIDv0
/// whose bytes start with the SHA2-256 multihash prefix `0x12 0x20` and are
/// followed by the 32-byte digest.
pub open spec fn spec_read_cid(s: Seq<u8>) -> Result<(CidModel, nat), CidError> {
    match varint_decode(s) {
        None => Err(CidError::VarIntDecode),
        Some((version, n1)) => match varint_decode(s.skip(n1 as int)) {
            None => Err(CidError::VarIntDecode),
            Some((codec, n2)) => if version == 0x12 && codec == 0x20 {
                if n1 + n2 + 32 > s.len() {
                    Err(CidError::UnexpectedEof)
                } else {
                    Ok((
                        CidModel {
                            version: CidVersion::V0,
                            codec: DAG_PB_CODE,
                            hash: MultihashModel {
                                code: SHA_256_CODE,
                                digest: s.subrange((n1 + n2) as int, (n1 + n2 + 32) as int),
                            },
                        },
                        n1 + n2 + 32,
                    ))
                }
            } else if version == 0 {
                Err(CidError::InvalidExplicitCidV0)
            } else if version != 1 {
                Err(CidError::InvalidCidVersion)
            } else {
                match spec_read_multihash(s.skip((n1 + n2) as int), MAX_DIGEST_SIZE as nat) {
                    Err(e) => Err(e),
                    Ok((mh, n3)) => Ok((
                        CidModel { version: CidVersion::V1, codec, hash: mh },
                        n1 + n2 + n3,
                    )),
                }
            },
        },
    }
}

proof fn lemma_skip_concat(a: Seq<u8>, b: Seq<u8>)
    ensures
        (a + b).skip(a.len() as int) == b,
{
    assert((a + b).skip(a.len() as int) =~= b);
}

/// Reading back the encoding of a multihash, followed by anything, gives the
/// multihash and the length of its encoding.
pub proof fn lemma_multihash_roundtrip(m: MultihashModel, max: nat, rest: Seq<u8>)
    requires
        m.digest.len() <= max,
        m.digest.len() <= 255,
    ensures
        spec_read_multihash(multihash_bytes(m) + rest, max) == Ok::<_, CidError>((m, multihash_bytes(m).len())),
{
    let a = varint_encode(m.code as nat);
    let b = varint_encode(m.digest.len());
    let s = multihash_bytes(m) + rest;
    assert(s == a + (b + m.digest + rest));
    lemma_varint_roundtrip(m.code, b + m.digest + rest);
    lemma_skip_concat(a, b + m.digest + rest);
    assert(b + m.digest + rest == b + (m.digest + rest));
    lemma_varint_roundtrip(m.digest.len() as u64, m.digest + rest);
    assert(s.skip(a.len() as int) == b + (m.digest + rest));
    let n1 = a.len();
    let n2 = b.len();
    assert(s.subrange((n1 + n2) as int, (n1 + n2 + m.digest.len()) as int) =~= m.digest);
}

/// Reading back the encoding of a well-formed CID, followed by anything, gives
/// the CID and the length of its encoding.
pub proof fn lemma_cid_roundtrip(c: CidModel, rest: Seq<u8>)
    requires
        cid_wf(c),
    ensures
        spec_read_cid(cid_bytes(c) + rest) == Ok::<_, CidError>((c, cid_bytes(c).len())),
{
    let s = cid_bytes(c) + rest;
    match c.version {
        CidVersion::V0 => {
            let a = varint_encode(0x12);
            let b = varint_encode(32);
            assert(a == seq![0x12u8]);
            assert(b == seq![0x20u8]);
            assert(s == a + (b + c.hash.digest + rest));
            lemma_varint_roundtrip(0x12, b + c.hash.digest + rest);
            lemma_skip_concat(a, b + c.hash.digest + rest);
            assert(b + c.hash.digest + rest == b + (c.hash.digest + rest));
            lemma_varint_roundtrip(0x20, c.hash.digest + rest);
            assert(s.subrange(2, 34) =~= c.hash.digest);
        },
        CidVersion::V1 => {
            let a = varint_encode(1);
            let b = varint_encode(c.codec as nat);
            let m = multihash_bytes(c.hash);
            assert(a == seq![1u8]);
            assert(s == a + (b + m + rest));
            lemma_varint_roundtrip(1, b + m + rest);
            lemma_skip_concat(a, b + m + rest);
            assert(b + m + rest == b + (m + rest));
            lemma_varint_roundtrip(c.codec, m + rest);
            assert(s.skip((a.len() + b.len()) as int) =~= m + rest);
            lemma_multihash_roundtrip(c.hash, MAX_DIGEST_SIZE as nat, rest);
        },
    }
}

/// Copies `len` bytes of `buf` starting at `start`.
pub fn copy_range(buf: &[u8], start: usize, len: usize) -> (out: Vec<u8>)
    requires
        start + len <= buf.len(),
    ensures
        out@ == buf@.subrange(start as int, start + len),
{
    let mut out: Vec<u8> = Vec::new();
    let mut i: usize = 0;
    while i < len
        invariant
            i <= len,
            start + len <= buf.len(),
            out@ == buf@.subrange(start as int, start + i),
        decreases len - i,
    {
        out.push(buf[start + i]);
        proof {
            assert(buf@.subrange(start as int, start + i + 1) == buf@.subrange(start as int, start + i).push(buf@[start + i]));
        }
        i += 1;
    }
    out
}

/// Appends all of `src` to `dst`.
pub fn append_bytes(dst: &mut Vec<u8>, src: &[u8])
    ensures
        final(dst)@ == old(dst)@ + src@,
{
    let mut i: usize = 0;
    while i < src.len()
        invariant
            i <= src.len(),
            dst@ == old(dst)@ + src@.take(i as int),
        decreases src.len() - i,
    {
        dst.push(src[i]);
        proof {
            assert(src@.take(i + 1) == src@.take(i as int).push(src@[i as int]));
        }
        i += 1;
    }
    proof {
        assert(src@.take(src.len() as int) == src@);
    }
}

/// Whether two byte strings are equal.
pub fn bytes_eq(a: &[u8], b: &[u8]) -> (r: bool)
    ensures
        r == (a@ == b@),
{
    if a.len() != b.len() {
        return false;
    }
    let mut i: usize = 0;
    while i < a.len()
        invariant
            i <= a.len(),
            a.len() == b.len(),
            a@.take(i as int) == b@.take(i as int),
        decreases a.len() - i,
    {
        if a[i] != b[i] {
            proof {
                assert(a@[i as int] != b@[i as int]);
            }
            return false;
        }
        proof {
            assert(a@.take(i + 1) == a@.take(i as int).push(a@[i as int]));
            assert(b@.take(i + 1) == b@.take(i as int).push(b@[i as int]));
        }
        i += 1;
    }
    proof {
        assert(a@ == a@.take(a.len() as int));
        assert(b@ == b@.take(b.len() as int));
    }
    true
}

impl Multihash {
    /// Wraps a digest produced by the hash function with the given code.
    pub fn wrap(code: u64, digest: Vec<u8>) -> (m: Multihash)
        ensures
            m@ == (MultihashModel { code, digest: digest@ }),
    {
        Multihash { code, digest }
    }

    /// The binary encoding of the multihash.
    pub fn to_bytes(&self) -> (out: Vec<u8>)
        ensures
            out@ == multihash_bytes(self@),
    {
        let mut out = encode_varint(self.code);
        write_varint(&mut out, self.digest.len() as u64);
        append_bytes(&mut out, self.digest.as_slice());
        out
    }

    /// A copy of the multihash.
    pub fn copy(&self) -> (m: Multihash)
        ensures
            m@ == self@,
    {
        let digest = copy_range(self.digest.as_slice(), 0, self.digest.len());
        proof {
            assert(self.digest@.subrange(0, self.digest@.len() as int) =~= self.digest@);
        }
        Multihash { code: self.code, digest }
    }
}

impl Cid {
    /// A new CIDv1 with the given codec and multihash.
    pub fn new_v1(codec: u64, hash: Multihash) -> (c: Cid)
        ensures
            c@ == (CidModel { version: CidVersion::V1, codec, hash: hash@ }),
    {
        Cid { version: CidVersion::V1, codec, hash }
    }

    /// The binary encoding of the CID.
    pub fn to_bytes(&self) -> (out: Vec<u8>)
        ensures
            out@ == cid_bytes(self@),
    {
        match self.version {
            CidVersion::V0 => self.hash.to_bytes(),
            CidVersion::V1 => {
                let mut out = encode_varint(1);
                write_varint(&mut out, self.codec);
                let mh = self.hash.to_bytes();
                proof {
                    assert(varint_encode(1) + varint_encode(self.codec as nat) + multihash_bytes(self.hash@)
                        == (varint_encode(1) + varint_encode(self.codec as nat)) + multihash_bytes(self.hash@));
                }
                append_bytes(&mut out, mh.as_slice());
                out
            },
        }
    }

    /// Number of bytes of the binary encoding of the CID.
    pub fn encoded_len(&self) -> (n: u64)
        requires
            self.hash.digest.len() <= 255,
        ensures
            n == cid_bytes(self@).len(),
    {
        let hl = required_space(self.hash.code) as u64 + required_space(self.hash.digest.len() as u64) as u64
            + self.hash.digest.len() as u64;
        match self.version {
            CidVersion::V0 => hl,
            CidVersion::V1 => {
                let n1 = required_space(1);
                let n2 = required_space(self.codec);
                n1 as u64 + n2 as u64 + hl
            },
        }
    }

    /// A copy of the CID.
    pub fn copy(&self) -> (c: Cid)
        ensures
            c@ == self@,
    {
        Cid { version: self.version, codec: self.codec, hash: self.hash.copy() }
    }

    /// Whether two CIDs are the same.
    pub fn same(&self, other: &Cid) -> (r: bool)
        ensures
            r == (self@ == other@),
    {
        if self.version != other.version || self.codec != other.codec || self.hash.code != other.hash.code {
            return false;
        }
        bytes_eq(self.hash.digest.as_slice(), other.hash.digest.as_slice())
    }

    /// The CID that stands for "no block": version 1, codec 0 and an empty
    /// identity multihash.
    pub fn placeholder() -> (c: Cid)
        ensures
            c@ == placeholder_model(),
    {
        Cid { version: CidVersion::V1, codec: 0, hash: Multihash { code: 0, digest: Vec::new() } }
    }
}

/// Access to the data inlined in an identity CID.
pub trait CidExt {
    /// The inlined data when the CID's multihash is an identity hash.
    fn get_identity_data(&self) -> Option<&[u8]>;
}

impl CidExt for Cid {
    /// The inlined data of an identity CID: `Some(digest)` when the multihash
    /// code is the identity code, `None` otherwise.
    fn get_identity_data(&self) -> (r: Option<&[u8]>)
        ensures
            self.hash.code == IDENTITY_CODE ==> (r matches Some(d) && d@ == self.hash.digest@),
            self.hash.code != IDENTITY_CODE ==> r is None,
    {
        if self.hash.code == IDENTITY_CODE {
            Some(self.hash.digest.as_slice())
        } else {
            None
        }
    }
}

/// Reads a multihash whose digest may hold at most `max` bytes, starting at
/// `pos`; on success, also the number of bytes read.
pub fn read_multihash(buf: &[u8], pos: usize, max: u64) -> (res: Result<(Multihash, usize), CidError>)
    requires
        pos <= buf.len(),
    ensures
        match spec_read_multihash(buf@.skip(pos as int), max as nat) {
            Ok((m, n)) => res matches Ok((rm, rn)) && rm@ == m && rn == n,
            Err(e) => res == Err::<(Multihash, usize), CidError>(e),
        },
        res matches Ok((m, n)) ==> pos + n <= buf.len(),
{
    let ghost s = buf@.skip(pos as int);
    let (code, n1) = match read_varint(buf, pos) {
        Some(r) => r,
        None => return Err(CidError::VarIntDecode),
    };
    proof {
        assert(buf@.skip(pos + n1) =~= s.skip(n1 as int));
    }
    let (size, n2) = match read_varint(buf, pos + n1) {
        Some(r) => r,
        None => return Err(CidError::VarIntDecode),
    };
    if size > max || size > 255 {
        return Err(CidError::ParsingError);
    }
    if n1 + n2 + (size as usize) > buf.len() - pos {
        return Err(CidError::ParsingError);
    }
    let digest = copy_range(buf, pos + n1 + n2, size as usize);
    proof {
        assert(digest@ == s.subrange((n1 + n2) as int, (n1 + n2 + size) as int));
    }
    Ok((Multihash { code, digest }, n1 + n2 + size as usize))
}

/// Reads a CID starting at `pos`; on success, also the number of bytes read.
pub fn read_cid(buf: &[u8], pos: usize) -> (res: Result<(Cid, usize), CidError>)
    requires
        pos <= buf.len(),
    ensures
        match spec_read_cid(buf@.skip(pos as int)) {
            Ok((c, n)) => res matches Ok((rc, rn)) && rc@ == c && rn == n,
            Err(e) => res == Err::<(Cid, usize), CidError>(e),
        },
        res matches Ok((c, n)) ==> pos + n <= buf.len(),
{
    let ghost s = buf@.skip(pos as int);
    let (version, n1) = match read_varint(buf, pos) {
        Some(r) => r,
        None => return Err(CidError::VarIntDecode),
    };
    proof {
        assert(buf@.skip(pos + n1) =~= s.skip(n1 as int));
    }
    let (codec, n2) = match read_varint(buf, pos + n1) {
        Some(r) => r,
        None => return Err(CidError::VarIntDecode),
    };
    if version == 0x12 && codec == 0x20 {
        if n1 + n2 + 32 > buf.len() - pos {
            return Err(CidError::UnexpectedEof);
        }
        let digest = copy_range(buf, pos + n1 + n2, 32);
        proof {
            assert(digest@ == s.subrange((n1 + n2) as int, (n1 + n2 + 32) as int));
        }
        return Ok((
            Cid { version: CidVersion::V0, codec: DAG_PB_CODE, hash: Multihash { code: SHA_256_CODE, digest } },
            n1 + n2 + 32,
        ));
    }
    if version == 0 {
        return Err(CidError::InvalidExplicitCidV0);
    }
    if version != 1 {
        return Err(CidError::InvalidCidVersion);
    }
    proof {
        assert(buf@.skip(pos + n1 + n2) =~= s.skip((n1 + n2) as int));
    }
    match read_multihash(buf, pos + n1 + n2, MAX_DIGEST_SIZE) {
        Err(e) => Err(e),
        Ok((mh, n3)) => Ok((Cid { version: CidVersion::V1, codec, hash: mh }, n1 + n2 + n3)),
    }
}

} // verus!
