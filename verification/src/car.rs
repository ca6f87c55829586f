//! The CAR (content-addressed archive) format, versions 1 and 2: block
//! framing, block metadata, the CARv2 pragma and fixed-size header, and the
//! length formulas the writers rely on.
use vstd::prelude::*;
use crate::varint::{varint_encode, varint_decode, varint_len, lemma_varint_roundtrip, lemma_u64_varint_len,
    read_varint, write_varint, required_space};
use crate::cid::{Cid, CidModel, CidError, cid_bytes, cid_wf, spec_read_cid, lemma_cid_roundtrip, read_cid,
    append_bytes, copy_range, bytes_eq};

verus! {

/// Number of bytes of the CARv2 pragma.
pub const PRAGMA_SIZE: usize = 11;
/// Number of bytes of the fixed CARv2 header that follows the pragma.
pub const V2_HEADER_BODY_SIZE: usize = 40;
/// Size of pragma and CARv2 header together: where the CARv1 payload of a
/// freshly written CARv2 file starts.
pub const V2_HEADER_SIZE: u64 = 51;

/// The CARv2 pragma: the CBOR map `{"version": 2}` prefixed with its length.
pub open spec fn pragma_spec() -> Seq<u8> {
    seq![0x0au8, 0xa1u8, 0x67u8, 0x76u8, 0x65u8, 0x72u8, 0x73u8, 0x69u8, 0x6fu8, 0x6eu8, 0x02u8]
}

/// The CARv2 pragma bytes.
pub fn pragma() -> (p: Vec<u8>)
    ensures
        p@ == pragma_spec(),
{
    let p: Vec<u8> = vec![0x0au8, 0xa1u8, 0x67u8, 0x76u8, 0x65u8, 0x72u8, 0x73u8, 0x69u8, 0x6fu8, 0x6eu8, 0x02u8];
    proof {
        assert(p@ =~= pragma_spec());
    }
    p
}

/// Errors of the CAR readers.
#[derive(Debug)]
#[allow(inconsistent_fields)]
pub enum Error {
    /// A version was expected, another was found.
    VersionMismatchError { expected: u8, received: u8 },
    /// A CARv1 header must name at least one root.
    EmptyRootsError,
    /// The number of roots is not the one required.
    WrongNumberOfRoots,
    /// The index has a type this library does not know.
    UnknownIndexError(u64),
    /// A digest does not have the expected length.
    NonMatchingDigestError { expected: u64, received: u64 },
    /// An index cannot be built from no entries.
    EmptyIndexError,
    /// The CARv2 characteristics have bits set that this library does not know.
    UnknownCharacteristicsError(u128),
    /// The bytes where the pragma should be are another pragma.
    InvalidPragmaError(Vec<u8>),
    /// The CID is not the expected one.
    InvalidCid,
    /// A block uses a codec that this library cannot traverse.
    UnknownCidCodec(u64),
    /// A CID is referenced but no block of the file carries it.
    MissingCid(Cid),
    /// The input ended early, or a block is shorter than its own CID.
    IoError,
    /// A varint was malformed.
    VarIntError,
    /// A CID or multihash was malformed.
    CidError(CidError),
    /// A block is not a valid DAG-PB node.
    DagPbError,
}

/// `256` raised to the power `n`.
pub open spec fn pow256(n: nat) -> nat
    decreases n,
{
    if n == 0 {
        1
    } else {
        256 * pow256((n - 1) as nat)
    }
}

/// The little-endian number written in `s`.
pub open spec fn le_value(s: Seq<u8>) -> nat
    decreases s.len(),
{
    if s.len() == 0 {
        0
    } else {
        s[0] as nat + 256 * le_value(s.drop_first())
    }
}

/// The `n` low bytes of `v`, least significant first.
pub open spec fn le_bytes(v: nat, n: nat) -> Seq<u8>
    decreases n,
{
    if n == 0 {
        Seq::empty()
    } else {
        seq![(v % 256) as u8] + le_bytes(v / 256, (n - 1) as nat)
    }
}

proof fn lemma_le_value_bound(s: Seq<u8>)
    ensures
        le_value(s) < pow256(s.len()),
    decreases s.len(),
{
    reveal_with_fuel(pow256, 2);
    if s.len() > 0 {
        lemma_le_value_bound(s.drop_first());
        let b = s[0] as int;
        let r = le_value(s.drop_first()) as int;
        let p = pow256(s.drop_first().len()) as int;
        assert(b + 256 * r < 256 * p) by (nonlinear_arith)
            requires
                0 <= b < 256,
                0 <= r < p,
        ;
    }
}

proof fn lemma_le_roundtrip(v: nat, n: nat)
    requires
        v < pow256(n),
    ensures
        le_value(le_bytes(v, n)) == v,
        le_bytes(v, n).len() == n,
    decreases n,
{
    reveal_with_fuel(pow256, 2);
    if n > 0 {
        let q = v / 256;
        assert(q < pow256((n - 1) as nat)) by (nonlinear_arith)
            requires
                v < 256 * pow256((n - 1) as nat),
                q == v / 256,
        ;
        lemma_le_roundtrip(q, (n - 1) as nat);
        assert(le_bytes(v, n).drop_first() == le_bytes(q, (n - 1) as nat));
    }
}

proof fn lemma_pow256_facts()
    ensures
        pow256(8) == 0x1_0000_0000_0000_0000,
        pow256(16) == 0x1_0000_0000_0000_0000_0000_0000_0000_0000,
{
    reveal_with_fuel(pow256, 17);
    assert(pow256(2) == 0x1_0000);
    assert(pow256(4) == 0x1_0000_0000);
    assert(pow256(8) == 0x1_0000_0000_0000_0000);
    assert(pow256(12) == 0x1_0000_0000_0000_0000_0000_0000);
    assert(pow256(16) == 0x1_0000_0000_0000_0000_0000_0000_0000_0000);
}

fn read_le(buf: &[u8], pos: usize, n: usize) -> (v: u128)
    requires
        n <= 16,
        pos + n <= buf.len(),
    ensures
        v == le_value(buf@.subrange(pos as int, pos + n)),
    decreases n,
{
    let ghost s = buf@.subrange(pos as int, pos + n);
    if n == 0 {
        return 0;
    }
    let rest = read_le(buf, pos + 1, n - 1);
    proof {
        assert(s.drop_first() == buf@.subrange(pos + 1, pos + n));
        lemma_le_value_bound(s.drop_first());
        lemma_pow256_facts();
        assert(pow256((n - 1) as nat) <= pow256(15)) by {
            reveal_with_fuel(pow256, 17);
        }
        assert(pow256(16) == 256 * pow256(15));
    }
    buf[pos] as u128 + 256 * rest
}

fn write_le(out: &mut Vec<u8>, v: u128, n: usize)
    ensures
        final(out)@ == old(out)@ + le_bytes(v as nat, n as nat),
{
    let mut i: usize = 0;
    let mut cur: u128 = v;
    let ghost mut written: Seq<u8> = Seq::empty();
    while i < n
        invariant
            i <= n,
            written + le_bytes(cur as nat, (n - i) as nat) == le_bytes(v as nat, n as nat),
            out@ == old(out)@ + written,
        decreases n - i,
    {
        let b = (cur % 256) as u8;
        out.push(b);
        proof {
            assert(le_bytes(cur as nat, (n - i) as nat) == seq![b] + le_bytes((cur / 256) as nat, (n - i - 1) as nat));
            assert(written.push(b) + le_bytes((cur / 256) as nat, (n - i - 1) as nat)
                == written + le_bytes(cur as nat, (n - i) as nat));
            written = written.push(b);
        }
        cur = cur / 256;
        i += 1;
    }
}

/// The characteristics of a CARv2 file. The only characteristic defined is
/// "fully indexed", the most significant bit of the 128-bit field.
#[derive(PartialEq, Eq, Structural, Clone, Copy, Debug)]
pub struct Characteristics {
    pub fully_indexed: bool,
}

/// The bit that marks a CARv2 file as fully indexed.
pub const FULLY_INDEXED_BIT: u128 = 0x8000_0000_0000_0000_0000_0000_0000_0000;

impl Characteristics {
    /// No characteristic set.
    pub fn empty() -> (c: Characteristics)
        ensures
            !c.fully_indexed,
    {
        Characteristics { fully_indexed: false }
    }

    /// The characteristics that a 128-bit field encodes, or `None` when a bit
    /// other than the fully-indexed one is set.
    pub fn from_bits(bits: u128) -> (c: Option<Characteristics>)
        ensures
            bits == 0 ==> c == Some(Characteristics { fully_indexed: false }),
            bits == FULLY_INDEXED_BIT ==> c == Some(Characteristics { fully_indexed: true }),
            bits != 0 && bits != FULLY_INDEXED_BIT ==> c is None,
    {
        if bits == 0 {
            Some(Characteristics { fully_indexed: false })
        } else if bits == FULLY_INDEXED_BIT {
            Some(Characteristics { fully_indexed: true })
        } else {
            None
        }
    }

    /// The 128-bit field that encodes these characteristics.
    pub fn bits(&self) -> (b: u128)
        ensures
            b == characteristics_bits(*self),
    {
        if self.fully_indexed {
            FULLY_INDEXED_BIT
        } else {
            0
        }
    }
}

/// The 128-bit field that encodes `c`.
pub open spec fn characteristics_bits(c: Characteristics) -> u128 {
    if c.fully_indexed {
        FULLY_INDEXED_BIT
    } else {
        0
    }
}

/// The fixed CARv2 header.
#[derive(PartialEq, Eq, Structural, Clone, Copy, Debug)]
pub struct V2Header {
    pub characteristics: Characteristics,
    pub data_offset: u64,
    pub data_size: u64,
    pub index_offset: u64,
}

/// The 40 bytes of a CARv2 header: the characteristics as a little-endian
/// 128-bit field, then data offset, data size and index offset as
/// little-endian 64-bit numbers.
pub open spec fn v2_header_bytes(h: V2Header) -> Seq<u8> {
    le_bytes(characteristics_bits(h.characteristics) as nat, 16) + le_bytes(h.data_offset as nat, 8)
        + le_bytes(h.data_size as nat, 8) + le_bytes(h.index_offset as nat, 8)
}

/// Reads a CARv2 header from the front of `s`.
pub open spec fn spec_read_v2_header(s: Seq<u8>) -> Option<Result<V2Header, u128>> {
    if s.len() < 40 {
        None
    } else {
        let bits = le_value(s.subrange(0, 16));
        if bits != 0 && bits != FULLY_INDEXED_BIT {
            Some(Err(bits as u128))
        } else {
            Some(Ok(V2Header {
                characteristics: Characteristics { fully_indexed: bits == FULLY_INDEXED_BIT },
                data_offset: le_value(s.subrange(16, 24)) as u64,
                data_size: le_value(s.subrange(24, 32)) as u64,
                index_offset: le_value(s.subrange(32, 40)) as u64,
            }))
        }
    }
}

impl V2Header {
    /// A header with the given fields; `fully_indexed` sets the only
    /// characteristic.
    pub fn new(fully_indexed: bool, data_offset: u64, data_size: u64, index_offset: u64) -> (h: V2Header)
        ensures
            h == (V2Header {
                characteristics: Characteristics { fully_indexed },
                data_offset,
                data_size,
                index_offset,
            }),
    {
        V2Header { characteristics: Characteristics { fully_indexed }, data_offset, data_size, index_offset }
    }

    /// The placeholder header written before the real one is known: no
    /// characteristics and all offsets zero.
    pub fn placeholder() -> (h: V2Header)
        ensures
            h == (V2Header {
                characteristics: Characteristics { fully_indexed: false },
                data_offset: 0,
                data_size: 0,
                index_offset: 0,
            }),
    {
        V2Header::new(false, 0, 0, 0)
    }

    /// The 40-byte encoding of the header.
    pub fn to_bytes(&self) -> (out: Vec<u8>)
        ensures
            out@ == v2_header_bytes(*self),
    {
        let mut out: Vec<u8> = Vec::new();
        write_le(&mut out, self.characteristics.bits(), 16);
        write_le(&mut out, self.data_offset as u128, 8);
        write_le(&mut out, self.data_size as u128, 8);
        write_le(&mut out, self.index_offset as u128, 8);
        out
    }
}

/// Reading back the encoding of a CARv2 header, followed by anything, gives
/// the header.
pub proof fn lemma_v2_header_roundtrip(h: V2Header, rest: Seq<u8>)
    ensures
        spec_read_v2_header(v2_header_bytes(h) + rest) == Some(Ok::<V2Header, u128>(h)),
{
    lemma_pow256_facts();
    let c = characteristics_bits(h.characteristics) as nat;
    lemma_le_roundtrip(c, 16);
    lemma_le_roundtrip(h.data_offset as nat, 8);
    lemma_le_roundtrip(h.data_size as nat, 8);
    lemma_le_roundtrip(h.index_offset as nat, 8);
    let s = v2_header_bytes(h) + rest;
    assert(s.subrange(0, 16) =~= le_bytes(c, 16));
    assert(s.subrange(16, 24) =~= le_bytes(h.data_offset as nat, 8));
    assert(s.subrange(24, 32) =~= le_bytes(h.data_size as nat, 8));
    assert(s.subrange(32, 40) =~= le_bytes(h.index_offset as nat, 8));
}

/// Reads the CARv2 pragma at `pos`: `Ok` when the next eleven bytes are the
/// pragma, the bytes found when they are not, an I/O error when fewer than
/// eleven bytes are left.
pub fn read_pragma(buf: &[u8], pos: usize) -> (res: Result<(), Error>)
    requires
        pos <= buf.len(),
    ensures
        buf.len() - pos < PRAGMA_SIZE ==> res matches Err(Error::IoError),
        buf.len() - pos >= PRAGMA_SIZE && buf@.subrange(pos as int, pos + PRAGMA_SIZE) == pragma_spec()
            ==> res is Ok,
        buf.len() - pos >= PRAGMA_SIZE && buf@.subrange(pos as int, pos + PRAGMA_SIZE) != pragma_spec()
            ==> (res matches Err(Error::InvalidPragmaError(found))
                && found@ == buf@.subrange(pos as int, pos + PRAGMA_SIZE)),
{
    if buf.len() - pos < PRAGMA_SIZE {
        return Err(Error::IoError);
    }
    let found = copy_range(buf, pos, PRAGMA_SIZE);
    let expected = pragma();
    if bytes_eq(found.as_slice(), expected.as_slice()) {
        Ok(())
    } else {
        Err(Error::InvalidPragmaError(found))
    }
}

/// Reads the 40-byte CARv2 header at `pos`.
pub fn read_v2_header(buf: &[u8], pos: usize) -> (res: Result<V2Header, Error>)
    requires
        pos <= buf.len(),
    ensures
        match spec_read_v2_header(buf@.skip(pos as int)) {
            None => res matches Err(Error::IoError),
            Some(Err(bits)) => res matches Err(Error::UnknownCharacteristicsError(b)) && b == bits,
            Some(Ok(h)) => res matches Ok(rh) && rh == h,
        },
{
    let ghost s = buf@.skip(pos as int);
    if buf.len() - pos < 40 {
        return Err(Error::IoError);
    }
    proof {
        assert(buf@.subrange(pos as int, pos + 16) == s.subrange(0, 16));
        assert(buf@.subrange(pos + 16, pos + 24) == s.subrange(16, 24));
        assert(buf@.subrange(pos + 24, pos + 32) == s.subrange(24, 32));
        assert(buf@.subrange(pos + 32, pos + 40) == s.subrange(32, 40));
        lemma_le_value_bound(s.subrange(16, 24));
        lemma_le_value_bound(s.subrange(24, 32));
        lemma_le_value_bound(s.subrange(32, 40));
        lemma_pow256_facts();
    }
    let bits = read_le(buf, pos, 16);
    let characteristics = match Characteristics::from_bits(bits) {
        Some(c) => c,
        None => return Err(Error::UnknownCharacteristicsError(bits)),
    };
    let data_offset = read_le(buf, pos + 16, 8) as u64;
    let data_size = read_le(buf, pos + 24, 8) as u64;
    let index_offset = read_le(buf, pos + 32, 8) as u64;
    Ok(V2Header { characteristics, data_offset, data_size, index_offset })
}

/// The framing of one CARv1 block: the varint length of CID and data
/// together, the CID, the data.
pub open spec fn block_bytes(cid: CidModel, data: Seq<u8>) -> Seq<u8> {
    varint_encode((cid_bytes(cid).len() + data.len()) as nat) + cid_bytes(cid) + data
}

/// Reads one framed block from the front of `s`: its CID, its data and the
/// number of bytes of the whole frame.
pub open spec fn spec_read_block(s: Seq<u8>) -> Result<(CidModel, Seq<u8>, nat), Error> {
    match varint_decode(s) {
        None => Err(Error::VarIntError),
        Some((len, n1)) => match spec_read_cid(s.skip(n1 as int)) {
            Err(e) => Err(Error::CidError(e)),
            Ok((cid, n2)) => if len < n2 || n1 + len > s.len() {
                Err(Error::IoError)
            } else {
                Ok((cid, s.subrange((n1 + n2) as int, (n1 + len) as int), (n1 + len) as nat))
            },
        },
    }
}

/// Reading back a framed block, followed by anything, gives its CID, its data
/// and the length of the frame.
pub proof fn lemma_block_roundtrip(cid: CidModel, data: Seq<u8>, rest: Seq<u8>)
    requires
        cid_wf(cid),
        cid_bytes(cid).len() + data.len() <= u64::MAX,
    ensures
        spec_read_block(block_bytes(cid, data) + rest) matches Ok((c, d, n))
            && c == cid && d == data && n == block_bytes(cid, data).len(),
{
    let len = (cid_bytes(cid).len() + data.len()) as u64;
    let a = varint_encode(len as nat);
    let s = block_bytes(cid, data) + rest;
    assert(s == a + (cid_bytes(cid) + (data + rest)));
    lemma_varint_roundtrip(len, cid_bytes(cid) + (data + rest));
    assert(s.skip(a.len() as int) =~= cid_bytes(cid) + (data + rest));
    lemma_cid_roundtrip(cid, data + rest);
    let n1 = a.len();
    let n2 = cid_bytes(cid).len();
    assert(s.subrange((n1 + n2) as int, (n1 + len) as int) =~= data);
}

/// Reads one framed block at `pos`: its CID, its data and the number of bytes
/// of the whole frame.
pub fn read_block(buf: &[u8], pos: usize) -> (res: Result<(Cid, Vec<u8>, usize), Error>)
    requires
        pos <= buf.len(),
    ensures
        match spec_read_block(buf@.skip(pos as int)) {
            Ok((c, d, n)) => res matches Ok((rc, rd, rn)) && rc@ == c && rd@ == d && rn == n,
            Err(Error::VarIntError) => res matches Err(Error::VarIntError),
            Err(Error::CidError(e)) => res matches Err(Error::CidError(re)) && re == e,
            Err(_) => res matches Err(Error::IoError),
        },
        res matches Ok((c, d, n)) ==> pos + n <= buf.len() && n > 0,
{
    let ghost s = buf@.skip(pos as int);
    let (len, n1) = match read_varint(buf, pos) {
        Some(r) => r,
        None => return Err(Error::VarIntError),
    };
    proof {
        assert(buf@.skip(pos + n1) =~= s.skip(n1 as int));
    }
    let (cid, n2) = match read_cid(buf, pos + n1) {
        Ok(r) => r,
        Err(e) => return Err(Error::CidError(e)),
    };
    if len < n2 as u64 || len > (buf.len() - pos - n1) as u64 {
        return Err(Error::IoError);
    }
    let data = copy_range(buf, pos + n1 + n2, len as usize - n2);
    proof {
        assert(data@ =~= s.subrange((n1 + n2) as int, (n1 + len) as int));
    }
    Ok((cid, data, n1 + len as usize))
}

/// Appends the framing of one block (length, CID, data) to `out` and returns
/// the number of bytes appended.
pub fn write_block(out: &mut Vec<u8>, cid: &Cid, data: &[u8]) -> (written: usize)
    requires
        cid_bytes(cid@).len() + data.len() <= u64::MAX,
        cid_bytes(cid@).len() + data.len() <= usize::MAX,
    ensures
        final(out)@ == old(out)@ + block_bytes(cid@, data@),
        written == block_bytes(cid@, data@).len(),
{
    let cb = cid.to_bytes();
    let total = (cb.len() + data.len()) as u64;
    let start = out.len();
    write_varint(out, total);
    append_bytes(out, cb.as_slice());
    append_bytes(out, data);
    proof {
        assert(out@ =~= old(out)@ + block_bytes(cid@, data@));
    }
    out.len() - start
}

/// Where a block sits in a CAR file, without its data.
pub struct BlockMetadata {
    /// Offset of the start of the block frame.
    pub block_offset: u64,
    /// CID of the block.
    pub cid: Cid,
    /// Offset of the first byte of the block's data.
    pub data_offset_source: u64,
    /// Number of bytes of the block's data.
    pub data_size: u64,
}

impl BlockMetadata {
    /// Number of bytes of the block's whole frame: the varint prefix, the CID
    /// and the data.
    pub fn encoded_len(&self) -> (n: u64)
        requires
            self.cid.hash.digest.len() <= 255,
            cid_bytes(self.cid@).len() + self.data_size + 10 <= u64::MAX,
        ensures
            n == varint_len((cid_bytes(self.cid@).len() + self.data_size) as nat) + cid_bytes(self.cid@).len()
                + self.data_size,
    {
        let len = self.cid.encoded_len() + self.data_size;
        proof {
            lemma_u64_varint_len(len);
        }
        required_space(len) as u64 + len
    }
}

/// Reads the metadata of the block framed at `pos` and skips its data.
/// Returns the metadata and the offset just past the block's data; the data
/// itself need not be present.
pub fn read_block_metadata(buf: &[u8], pos: usize) -> (res: Result<(BlockMetadata, u64), Error>)
    requires
        pos <= buf.len(),
    ensures
        match spec_read_block_metadata(buf@, pos as nat) {
            Err(e) => res == Err::<(BlockMetadata, u64), Error>(e),
            Ok((m, next)) => res matches Ok((rm, rn)) && rm@ == m && rn == next,
        },
{
    let (len, n1) = match read_varint(buf, pos) {
        Some(r) => r,
        None => return Err(Error::VarIntError),
    };
    let (cid, n2) = match read_cid(buf, pos + n1) {
        Ok(r) => r,
        Err(e) => return Err(Error::CidError(e)),
    };
    if len < n2 as u64 || len - n2 as u64 > i64::MAX as u64 {
        return Err(Error::IoError);
    }
    let base = pos as u64 + n1 as u64;
    if len > u64::MAX - base {
        return Err(Error::IoError);
    }
    let data_offset_source = base + n2 as u64;
    let data_size = len - n2 as u64;
    let next = base + len;
    Ok((BlockMetadata { block_offset: pos as u64, cid, data_offset_source, data_size }, next))
}


/// The SHA2-256 digest of 32 zero bytes, the hash of the placeholder root.
pub open spec fn default_hash_spec() -> Seq<u8> {
    seq![
        0x66u8, 0x68u8, 0x7au8, 0xadu8, 0xf8u8, 0x62u8, 0xbdu8, 0x77u8, 0x6cu8, 0x8fu8, 0xc1u8, 0x8bu8, 0x8eu8,
        0x9fu8, 0x8eu8, 0x20u8, 0x08u8, 0x97u8, 0x14u8, 0x85u8, 0x6eu8, 0xe2u8, 0x33u8, 0xb3u8, 0x90u8, 0x2au8,
        0x59u8, 0x1du8, 0x0du8, 0x5fu8, 0x29u8, 0x25u8,
    ]
}

fn default_hash() -> (h: Vec<u8>)
    ensures
        h@ == default_hash_spec(),
{
    let h = vec![
        0x66u8, 0x68u8, 0x7au8, 0xadu8, 0xf8u8, 0x62u8, 0xbdu8, 0x77u8, 0x6cu8, 0x8fu8, 0xc1u8, 0x8bu8, 0x8eu8,
        0x9fu8, 0x8eu8, 0x20u8, 0x08u8, 0x97u8, 0x14u8, 0x85u8, 0x6eu8, 0xe2u8, 0x33u8, 0xb3u8, 0x90u8, 0x2au8,
        0x59u8, 0x1du8, 0x0du8, 0x5fu8, 0x29u8, 0x25u8,
    ];
    proof {
        assert(h@ =~= default_hash_spec());
    }
    h
}

/// The placeholder root: a raw CIDv1 of the SHA2-256 hash of 32 zero bytes.
pub open spec fn placeholder_root() -> CidModel {
    CidModel {
        version: crate::cid::CidVersion::V1,
        codec: crate::cid::RAW_CODE,
        hash: crate::cid::MultihashModel { code: crate::cid::SHA_256_CODE, digest: default_hash_spec() },
    }
}

/// Length of the DAG-CBOR encoding of a CARv1 header with `n` roots of
/// 36-byte CIDs: the fixed part, 41 bytes per root, and the varint prefix.
pub open spec fn header_encoded_len(n: nat) -> nat {
    let body = 17 + 41 * n;
    varint_len(body) + body
}

/// A CARv1 header: its version, always 1, and the root CIDs.
pub struct Header {
    pub version: u8,
    pub roots: Vec<Cid>,
}

impl Header {
    /// A version 1 header with `roots`.
    pub fn new(roots: Vec<Cid>) -> (h: Header)
        ensures
            h.version == 1,
            h.roots@ == roots@,
    {
        Header { version: 1, roots }
    }

    /// Checks a decoded header: its version must be 1 and it must name at
    /// least one root.
    pub fn from_decoded(version: u8, roots: Vec<Cid>) -> (res: Result<Header, Error>)
        ensures
            version != 1 ==> res == Err::<Header, Error>(Error::VersionMismatchError { expected: 1, received: version }),
            version == 1 && roots@.len() == 0 ==> res == Err::<Header, Error>(Error::EmptyRootsError),
            version == 1 && roots@.len() > 0 ==> (res matches Ok(h) && h.version == 1 && h.roots@ == roots@),
    {
        if version != 1 {
            return Err(Error::VersionMismatchError { expected: 1, received: version });
        }
        if roots.len() == 0 {
            return Err(Error::EmptyRootsError);
        }
        Ok(Header { version, roots })
    }

    /// The fixed part of the encoded header: the map, the "roots" and
    /// "version" keys, the array head and the version.
    fn cbor_static_overhead() -> (n: usize)
        ensures
            n == 17,
    {
        1 + 1 + 5 + 1 + 1 + 7 + 1
    }

    /// The encoded length of one root: tag, byte-string head and a 37-byte
    /// CID (with the leading zero of the byte string).
    fn cbor_cid_encoded_len() -> (n: usize)
        ensures
            n == 41,
    {
        2 + 2 + 37
    }

    /// Length of the encoded header, its varint prefix included, computed
    /// from the number of roots: `overhead + 41 * roots.len()` plus the
    /// prefix.
    pub fn encoded_len(&self) -> (n: usize)
        requires
            17 + 41 * self.roots@.len() + 10 <= usize::MAX,
        ensures
            n == header_encoded_len(self.roots@.len()),
    {
        let body = Self::cbor_static_overhead() + Self::cbor_cid_encoded_len() * self.roots.len();
        proof {
            lemma_u64_varint_len(body as u64);
        }
        required_space(body as u64) + body
    }
}

impl Default for Header {
    /// The placeholder header written before the root is known: one root,
    /// the raw CID of the hash of 32 zero bytes.
    fn default() -> (h: Header)
        ensures
            h.version == 1,
            h.roots@.len() == 1,
            h.roots@[0]@ == placeholder_root(),
    {
        let root = Cid::new_v1(
            crate::cid::RAW_CODE,
            crate::cid::Multihash::wrap(crate::cid::SHA_256_CODE, default_hash()),
        );
        let mut roots: Vec<Cid> = Vec::new();
        roots.push(root);
        Header { version: 1, roots }
    }
}

/// Reads the frame of a CARv1 header at `pos`: a varint length and that many
/// bytes, which must not be the rest of a CARv2 pragma. Returns where the
/// encoded header starts and its length; decoding it is the caller's.
pub fn read_header_frame(buf: &[u8], pos: usize) -> (res: Result<(usize, usize), Error>)
    requires
        pos <= buf.len(),
    ensures
        match varint_decode(buf@.skip(pos as int)) {
            None => res == Err::<(usize, usize), Error>(Error::VarIntError),
            Some((len, n)) => if pos + n + len > buf@.len() {
                res == Err::<(usize, usize), Error>(Error::IoError)
            } else if len >= 10 && buf@.subrange(pos + n, pos + n + 10) == pragma_spec().skip(1) {
                res == Err::<(usize, usize), Error>(Error::VersionMismatchError { expected: 1, received: 2 })
            } else {
                res == Ok::<(usize, usize), Error>(((pos + n) as usize, len as usize))
            },
        },
{
    let (len, n) = match read_varint(buf, pos) {
        Some(r) => r,
        None => {
            return Err(Error::VarIntError);
        },
    };
    if len > (buf.len() - pos - n) as u64 {
        return Err(Error::IoError);
    }
    let start = pos + n;
    if len >= 10 {
        let p = pragma();
        let tail = copy_range(p.as_slice(), 1, 10);
        let head = copy_range(buf, start, 10);
        proof {
            assert(tail@ =~= pragma_spec().skip(1));
        }
        if bytes_eq(head.as_slice(), tail.as_slice()) {
            return Err(Error::VersionMismatchError { expected: 1, received: 2 });
        }
    }
    Ok((start, len as usize))
}

/// Sum of the frame lengths of the first `n` blocks.
pub open spec fn frames_len(blocks: Seq<BlockMetadata>, n: nat) -> nat
    decreases n,
{
    if n == 0 {
        0
    } else {
        frames_len(blocks, (n - 1) as nat) + varint_len(
            (cid_bytes(blocks[n - 1].cid@).len() + blocks[n - 1].data_size) as nat,
        ) + cid_bytes(blocks[n - 1].cid@).len() + blocks[n - 1].data_size as nat
    }
}

/// The CARv2 header of a file whose CARv1 payload is the header `v1` and
/// the blocks `blocks`: not fully indexed, the payload right after the
/// CARv2 header and the index right after the payload.
pub fn header_v2(v1: &Header, blocks: &Vec<BlockMetadata>) -> (h: V2Header)
    requires
        17 + 41 * v1.roots@.len() + 10 <= usize::MAX,
        forall|i: int| 0 <= i < blocks@.len() ==> (#[trigger] blocks@[i]).cid.hash.digest@.len() <= 255
            && cid_bytes(blocks@[i].cid@).len() + blocks@[i].data_size + 10 <= u64::MAX,
        V2_HEADER_SIZE + header_encoded_len(v1.roots@.len()) + frames_len(blocks@, blocks@.len()) <= u64::MAX,
    ensures
        h == (V2Header {
            characteristics: Characteristics { fully_indexed: false },
            data_offset: V2_HEADER_SIZE,
            data_size: (header_encoded_len(v1.roots@.len()) + frames_len(blocks@, blocks@.len())) as u64,
            index_offset: (V2_HEADER_SIZE + header_encoded_len(v1.roots@.len()) + frames_len(blocks@, blocks@.len())) as u64,
        }),
{
    let mut total: u64 = 0;
    let mut i: usize = 0;
    while i < blocks.len()
        invariant
            i <= blocks.len(),
            forall|j: int| 0 <= j < blocks@.len() ==> (#[trigger] blocks@[j]).cid.hash.digest@.len() <= 255
                && cid_bytes(blocks@[j].cid@).len() + blocks@[j].data_size + 10 <= u64::MAX,
            V2_HEADER_SIZE + header_encoded_len(v1.roots@.len()) + frames_len(blocks@, blocks@.len()) <= u64::MAX,
            total == frames_len(blocks@, i as nat),
        decreases blocks.len() - i,
    {
        proof {
            lemma_frames_monotone(blocks@, (i + 1) as nat, blocks@.len());
        }
        let n = blocks[i].encoded_len();
        total = total + n;
        i += 1;
    }
    let payload = v1.encoded_len() as u64 + total;
    V2Header::new(false, V2_HEADER_SIZE, payload, V2_HEADER_SIZE + payload)
}

proof fn lemma_frames_monotone(blocks: Seq<BlockMetadata>, k: nat, n: nat)
    requires
        k <= n,
    ensures
        frames_len(blocks, k) <= frames_len(blocks, n),
    decreases n - k,
{
    if k < n {
        lemma_frames_monotone(blocks, k, (n - 1) as nat);
    }
}

/// An entry of a CARv2 index: the digest of a block's CID and the offset of
/// its frame from the start of the CARv1 payload.
pub struct IndexEntry {
    pub digest: Vec<u8>,
    pub offset: u64,
}

/// Lays out a CARv2 file as blocks are added: a placeholder CARv2 header and
/// CARv1 header first, then the block frames one after the other; the
/// index follows the last block. The root is the last block added.
pub struct CarLayout {
    position: u64,
    entries: Vec<IndexEntry>,
    root: Option<Cid>,
}

impl CarLayout {
    /// Offset just past the last block frame.
    pub closed spec fn position_view(&self) -> nat {
        self.position as nat
    }

    /// The index entries so far: digest and offset in the CARv1 payload.
    pub closed spec fn entries_view(&self) -> Seq<(Seq<u8>, u64)> {
        self.entries@.map_values(|e: IndexEntry| (e.digest@, e.offset))
    }

    /// The CID of the last block added.
    pub closed spec fn root_view(&self) -> Option<CidModel> {
        match self.root {
            Some(c) => Some(c@),
            None => None,
        }
    }

    /// The position is past both headers.
    pub closed spec fn wf(&self) -> bool {
        self.position >= V2_HEADER_SIZE
    }

    /// An empty layout: the blocks start after the CARv2 header and a
    /// placeholder CARv1 header with one root.
    pub fn new() -> (l: CarLayout)
        ensures
            l.wf(),
            l.position_view() == V2_HEADER_SIZE + header_encoded_len(1),
            l.entries_view() == Seq::<(Seq<u8>, u64)>::empty(),
            l.root_view() is None,
    {
        let placeholder = Header::default();
        let n = placeholder.encoded_len();
        let l = CarLayout { position: V2_HEADER_SIZE + n as u64, entries: Vec::new(), root: None };
        proof {
            assert(l.entries_view() =~= Seq::<(Seq<u8>, u64)>::empty());
        }
        l
    }

    /// Adds a block: returns the bytes of its frame, to be written at the
    /// current position, and records its index entry. `None`, with nothing
    /// changed, when the file would grow past 64-bit offsets.
    pub fn add_block(&mut self, cid: &Cid, data: &[u8]) -> (r: Option<Vec<u8>>)
        requires
            old(self).wf(),
            cid.hash.digest@.len() <= 255,
            cid_bytes(cid@).len() + data@.len() <= usize::MAX,
        ensures
            final(self).wf(),
            old(self).position_view() + block_bytes(cid@, data@).len() > u64::MAX ==> (r is None && final(self).position_view()
                == old(self).position_view() && final(self).entries_view() == old(self).entries_view()
                && final(self).root_view() == old(self).root_view()),
            old(self).position_view() + block_bytes(cid@, data@).len() <= u64::MAX ==> {
                &&& r matches Some(b) && b@ == block_bytes(cid@, data@)
                &&& final(self).position_view() == old(self).position_view() + block_bytes(cid@, data@).len()
                &&& final(self).entries_view() == old(self).entries_view().push(
                    (cid@.hash.digest, (old(self).position_view() - V2_HEADER_SIZE) as u64),
                )
                &&& final(self).root_view() == Some(cid@)
            },
    {
        let cl = cid.encoded_len();
        let dl = data.len() as u64;
        if dl > u64::MAX - cl {
            return None;
        }
        let total = cl + dl;
        let vl = required_space(total) as u64;
        if total > u64::MAX - vl || self.position > u64::MAX - total - vl {
            return None;
        }
        let mut out: Vec<u8> = Vec::new();
        let written = write_block(&mut out, cid, data);
        proof {
            assert(out@ =~= block_bytes(cid@, data@));
        }
        let offset = self.position - V2_HEADER_SIZE;
        let ghost before = self.entries_view();
        let digest = copy_range(cid.hash.digest.as_slice(), 0, cid.hash.digest.len());
        proof {
            assert(cid.hash.digest@.subrange(0, cid.hash.digest@.len() as int) =~= cid.hash.digest@);
        }
        self.entries.push(IndexEntry { digest, offset });
        proof {
            assert(self.entries_view() =~= before.push((cid@.hash.digest, offset)));
        }
        self.position = self.position + written as u64;
        self.root = Some(cid.copy());
        Some(out)
    }

    /// The headers of the finished file: a CARv2 header (not fully indexed,
    /// the CARv1 payload after it, the index after the last block) and the
    /// CARv1 header naming the last block as root. With no block, there is
    /// no root.
    pub fn finish(&self) -> (res: Result<(V2Header, Header), Error>)
        requires
            self.wf(),
        ensures
            self.root_view() is None ==> res == Err::<(V2Header, Header), Error>(Error::EmptyRootsError),
            self.root_view() matches Some(root) ==> (res matches Ok((h2, h1)) && h2 == (V2Header {
                characteristics: Characteristics { fully_indexed: false },
                data_offset: V2_HEADER_SIZE,
                data_size: (self.position_view() - V2_HEADER_SIZE) as u64,
                index_offset: self.position_view() as u64,
            }) && h1.version == 1 && h1.roots@.len() == 1 && h1.roots@[0]@ == root),
    {
        match &self.root {
            None => Err(Error::EmptyRootsError),
            Some(root) => {
                let h2 = V2Header::new(false, V2_HEADER_SIZE, self.position - V2_HEADER_SIZE, self.position);
                let mut roots: Vec<Cid> = Vec::new();
                roots.push(root.copy());
                Ok((h2, Header::new(roots)))
            },
        }
    }

    /// The index entries, in the order the blocks were added.
    pub fn entries(&self) -> (e: &Vec<IndexEntry>)
        ensures
            e@.map_values(|x: IndexEntry| (x.digest@, x.offset)) == self.entries_view(),
    {
        &self.entries
    }
}


/// A framed block read from the front of `s` takes at least one byte and
/// no more than `s`.
pub proof fn lemma_read_block_progress(s: Seq<u8>)
    ensures
        spec_read_block(s) matches Ok((c, d, n)) ==> 0 < n <= s.len(),
{
    crate::varint::lemma_varint_decode_bounds(s);
}

/// The CID of the last block among those read one after the other from the
/// front of `s`, until one cannot be read; `last` when none can.
pub open spec fn last_block_cid(s: Seq<u8>, last: CidModel) -> CidModel
    decreases s.len(),
{
    match spec_read_block(s) {
        Ok((c, _, n)) => {
            proof {
                lemma_read_block_progress(s);
            }
            last_block_cid(s.skip(n as int), c)
        },
        Err(_) => last,
    }
}

/// Checks that a CAR file holds `contents_cid`: its header must name it as
/// its only root (`roots`), and the last of the blocks read one after the
/// other from `blocks_start`, until one cannot be read, must carry it. With
/// no block, the CID compared is the default one.
pub fn verify_cid(roots: &Vec<Cid>, buf: &[u8], blocks_start: usize, contents_cid: &Cid) -> (res: Result<(), Error>)
    requires
        blocks_start <= buf.len(),
    ensures
        res is Ok <==> (roots@.len() == 1 && roots@[0]@ == contents_cid@ && last_block_cid(
            buf@.skip(blocks_start as int),
            crate::cid::placeholder_model(),
        ) == contents_cid@),
        res is Err ==> res == Err::<(), Error>(Error::InvalidCid),
        forall|blocks: Seq<(CidModel, Seq<u8>)>|
            blocks.len() > 0 && blocks_framable(blocks) && buf@.skip(blocks_start as int) == #[trigger] frames_of(
                blocks,
            ) ==> (res is Ok <==> (roots@.len() == 1 && roots@[0]@ == contents_cid@ && blocks.last().0
                == contents_cid@)),
{
    proof {
        assert forall|blocks: Seq<(CidModel, Seq<u8>)>|
            blocks.len() > 0 && blocks_framable(blocks) && buf@.skip(blocks_start as int) == #[trigger] frames_of(
                blocks,
            ) implies last_block_cid(buf@.skip(blocks_start as int), crate::cid::placeholder_model())
            == blocks.last().0 by {
            let empty = Seq::<u8>::empty();
            lemma_read_block_progress(empty);
            law_last_block_read_is_last_written(blocks, empty, crate::cid::placeholder_model());
            assert(frames_of(blocks) + empty =~= frames_of(blocks));
        }
    }
    if roots.len() != 1 || !roots[0].same(contents_cid) {
        return Err(Error::InvalidCid);
    }
    let mut last = Cid::placeholder();
    let mut pos = blocks_start;
    let ghost total = last_block_cid(buf@.skip(blocks_start as int), crate::cid::placeholder_model());
    loop
        invariant
            pos <= buf.len(),
            total == last_block_cid(buf@.skip(pos as int), last@),
        ensures
            total == last@,
        decreases buf.len() - pos,
    {
        match read_block(buf, pos) {
            Ok((c, _, n)) => {
                proof {
                    assert(buf@.skip(pos as int).skip(n as int) =~= buf@.skip(pos + n));
                }
                last = c;
                pos = pos + n;
            },
            Err(_) => {
                break;
            },
        }
    }
    if last.same(contents_cid) {
        Ok(())
    } else {
        Err(Error::InvalidCid)
    }
}


/// The CARv1 frames of `blocks`, one after the other in order.
pub open spec fn frames_of(blocks: Seq<(CidModel, Seq<u8>)>) -> Seq<u8>
    decreases blocks.len(),
{
    if blocks.len() == 0 {
        Seq::empty()
    } else {
        block_bytes(blocks[0].0, blocks[0].1) + frames_of(blocks.drop_first())
    }
}

/// Every block of `blocks` has a well-formed CID and a frame whose length
/// fits in 64 bits.
pub open spec fn blocks_framable(blocks: Seq<(CidModel, Seq<u8>)>) -> bool {
    forall|i: int|
        0 <= i < blocks.len() ==> cid_wf((#[trigger] blocks[i]).0) && cid_bytes(blocks[i].0).len()
            + blocks[i].1.len() <= u64::MAX
}

/// Reading the frames of blocks one after the other, up to bytes that hold
/// no block, ends on the CID of the last block written; with no block, on
/// the CID one started from.
pub proof fn law_last_block_read_is_last_written(blocks: Seq<(CidModel, Seq<u8>)>, rest: Seq<u8>, start: CidModel)
    requires
        blocks_framable(blocks),
        spec_read_block(rest) is Err,
    ensures
        last_block_cid(frames_of(blocks) + rest, start) == if blocks.len() == 0 {
            start
        } else {
            blocks.last().0
        },
    decreases blocks.len(),
{
    if blocks.len() == 0 {
        assert(frames_of(blocks) + rest =~= rest);
    } else {
        let (c, d) = blocks[0];
        let tail = blocks.drop_first();
        assert(blocks_framable(tail)) by {
            assert forall|i: int| 0 <= i < tail.len() implies cid_wf((#[trigger] tail[i]).0) && cid_bytes(
                tail[i].0,
            ).len() + tail[i].1.len() <= u64::MAX by {
                assert(tail[i] == blocks[i + 1]);
            }
        }
        assert(cid_wf(blocks[0].0));
        let s = frames_of(blocks) + rest;
        let after = frames_of(tail) + rest;
        assert(s =~= block_bytes(c, d) + after);
        lemma_block_roundtrip(c, d, after);
        let n = block_bytes(c, d).len();
        assert(s.skip(n as int) =~= after);
        law_last_block_read_is_last_written(tail, rest, c);
        if tail.len() > 0 {
            assert(tail.last() == blocks.last());
        }
    }
}

/// The metadata of a block as values.
pub struct BlockMetadataModel {
    pub block_offset: u64,
    pub cid: CidModel,
    pub data_offset_source: u64,
    pub data_size: u64,
}

impl View for BlockMetadata {
    type V = BlockMetadataModel;

    open spec fn view(&self) -> BlockMetadataModel {
        BlockMetadataModel {
            block_offset: self.block_offset,
            cid: self.cid@,
            data_offset_source: self.data_offset_source,
            data_size: self.data_size,
        }
    }
}

/// The metadata of the block framed at `pos` of `buf`, and the offset just
/// past its data, or why it cannot be read.
pub open spec fn spec_read_block_metadata(buf: Seq<u8>, pos: nat) -> Result<(BlockMetadataModel, nat), Error> {
    match varint_decode(buf.skip(pos as int)) {
        None => Err(Error::VarIntError),
        Some((len, n1)) => match spec_read_cid(buf.skip((pos + n1) as int)) {
            Err(e) => Err(Error::CidError(e)),
            Ok((cid, n2)) => if len < n2 || len - n2 > i64::MAX || pos + n1 + len > u64::MAX {
                Err(Error::IoError)
            } else {
                Ok((
                    BlockMetadataModel {
                        block_offset: pos as u64,
                        cid,
                        data_offset_source: (pos + n1 + n2) as u64,
                        data_size: (len - n2) as u64,
                    },
                    (pos + n1 + len) as nat,
                ))
            },
        },
    }
}

/// The metadata of the blocks from `pos` on, read one after the other: a
/// block is read, then the reading stops if its data reaches `data_end`.
/// Also the error that stopped the reading early, if one did.
pub open spec fn metadata_from(buf: Seq<u8>, pos: nat, data_end: nat) -> (Seq<BlockMetadataModel>, Option<Error>)
    decreases buf.len() - pos,
{
    if pos > buf.len() {
        (Seq::empty(), Some(Error::IoError))
    } else {
        match spec_read_block_metadata(buf, pos) {
            Err(e) => (Seq::empty(), Some(e)),
            Ok((m, next)) => {
                proof {
                    crate::varint::lemma_varint_decode_bounds(buf.skip(pos as int));
                }
                if next >= data_end || next <= pos {
                    (seq![m], None)
                } else if next > buf.len() {
                    (seq![m], Some(Error::IoError))
                } else {
                    let (rest, err) = metadata_from(buf, next, data_end);
                    (seq![m] + rest, err)
                }
            },
        }
    }
}

/// Reads the metadata of the blocks of a CAR payload from `pos`, the first
/// block after the headers, until one whose data reaches `data_end`.
/// Returns the metadata read and, if one occurred, the error that stopped
/// the reading.
pub fn stream_blocks_metadata(buf: &[u8], pos: usize, data_end: u64) -> (r: (Vec<BlockMetadata>, Option<Error>))
    ensures
        (r.0@.map_values(|m: BlockMetadata| m@), r.1) == metadata_from(buf@, pos as nat, data_end as nat),
{
    let mut out: Vec<BlockMetadata> = Vec::new();
    let mut p: usize = pos;
    let ghost total = metadata_from(buf@, pos as nat, data_end as nat);
    proof {
        assert(out@.map_values(|m: BlockMetadata| m@) =~= Seq::<BlockMetadataModel>::empty());
        assert(total.0 =~= Seq::<BlockMetadataModel>::empty() + total.0);
    }
    let mut err: Option<Error> = None;
    if p > buf.len() {
        proof {
            assert(Seq::<BlockMetadataModel>::empty() + Seq::<BlockMetadataModel>::empty() =~= Seq::<BlockMetadataModel>::empty());
        }
        return (out, Some(Error::IoError));
    }
    loop
        invariant_except_break
            total.0 == out@.map_values(|m: BlockMetadata| m@) + metadata_from(buf@, p as nat, data_end as nat).0,
            total.1 == metadata_from(buf@, p as nat, data_end as nat).1,
            err is None,
            p <= buf.len(),
        ensures
            total == (out@.map_values(|m: BlockMetadata| m@), err),
        decreases buf.len() + 1 - p,
    {
        match read_block_metadata(buf, p) {
            Err(e) => {
                proof {
                    assert(out@.map_values(|m: BlockMetadata| m@) + Seq::<BlockMetadataModel>::empty() =~= out@.map_values(
                        |m: BlockMetadata| m@,
                    ));
                }
                err = Some(e);
                break;
            },
            Ok((m, next)) => {
                proof {
                    crate::varint::lemma_varint_decode_bounds(buf@.skip(p as int));
                }
                let position = m.data_offset_source + m.data_size;
                let ghost prev = out@.map_values(|m: BlockMetadata| m@);
                let ghost mm = m@;
                out.push(m);
                proof {
                    assert(out@.map_values(|m: BlockMetadata| m@) =~= prev.push(mm));
                }
                if next >= data_end || next <= p as u64 {
                    proof {
                        assert(prev + seq![mm] =~= prev.push(mm));
                    }
                    break;
                }
                proof {
                    assert(prev + (seq![mm] + metadata_from(buf@, next as nat, data_end as nat).0) =~= prev.push(mm)
                        + metadata_from(buf@, next as nat, data_end as nat).0);
                }
                if next > buf.len() as u64 {
                    err = Some(Error::IoError);
                    proof {
                        assert(metadata_from(buf@, next as nat, data_end as nat).0 =~= Seq::<BlockMetadataModel>::empty());
                        assert(prev.push(mm) + Seq::<BlockMetadataModel>::empty() =~= prev.push(mm));
                    }
                    break;
                }
                p = next as usize;
            },
        }
    }
    (out, err)
}


/// The metadata of the blocks that start before `data_end`, read one after
/// the other from `pos`, or the first error.
pub open spec fn index_from(buf: Seq<u8>, pos: nat, data_end: nat) -> Result<Seq<BlockMetadataModel>, Error>
    decreases data_end - pos,
{
    if pos >= data_end {
        Ok(Seq::empty())
    } else if pos > buf.len() {
        Err(Error::IoError)
    } else {
        match spec_read_block_metadata(buf, pos) {
            Err(e) => Err(e),
            Ok((m, next)) => {
                proof {
                    crate::varint::lemma_varint_decode_bounds(buf.skip(pos as int));
                }
                if next <= pos || next >= data_end {
                    Ok(seq![m])
                } else {
                    match index_from(buf, next, data_end) {
                        Err(e) => Err(e),
                        Ok(rest) => Ok(seq![m] + rest),
                    }
                }
            },
        }
    }
}

/// Indexes a CAR payload naively: reads the metadata of every block that
/// starts before `data_end`, from `pos` on, without its data.
pub fn naive_build_index(buf: &[u8], pos: usize, data_end: u64) -> (res: Result<Vec<BlockMetadata>, Error>)
    ensures
        match index_from(buf@, pos as nat, data_end as nat) {
            Err(e) => res == Err::<Vec<BlockMetadata>, Error>(e),
            Ok(v) => res matches Ok(r) && r@.map_values(|m: BlockMetadata| m@) == v,
        },
{
    let mut out: Vec<BlockMetadata> = Vec::new();
    let mut p: u64 = pos as u64;
    let ghost total = index_from(buf@, pos as nat, data_end as nat);
    proof {
        assert(out@.map_values(|m: BlockMetadata| m@) =~= Seq::<BlockMetadataModel>::empty());
        if total is Ok {
            assert(total->Ok_0 =~= Seq::<BlockMetadataModel>::empty() + total->Ok_0);
        }
    }
    loop
        invariant
            total == index_from(buf@, pos as nat, data_end as nat),
            total is Ok ==> (index_from(buf@, p as nat, data_end as nat) matches Ok(rest) && total->Ok_0 == out@.map_values(
                |m: BlockMetadata| m@,
            ) + rest),
            total is Err ==> index_from(buf@, p as nat, data_end as nat) == total,
            total is Ok <==> index_from(buf@, p as nat, data_end as nat) is Ok,
        decreases if p <= data_end {
            data_end - p
        } else {
            0
        },
    {
        if p >= data_end {
            proof {
                assert(out@.map_values(|m: BlockMetadata| m@) + Seq::<BlockMetadataModel>::empty() =~= out@.map_values(
                    |m: BlockMetadata| m@,
                ));
            }
            return Ok(out);
        }
        if p > buf.len() as u64 {
            return Err(Error::IoError);
        }
        match read_block_metadata(buf, p as usize) {
            Err(e) => {
                return Err(e);
            },
            Ok((m, next)) => {
                proof {
                    crate::varint::lemma_varint_decode_bounds(buf@.skip(p as int));
                }
                let ghost prev = out@.map_values(|m: BlockMetadata| m@);
                let ghost mm = m@;
                out.push(m);
                proof {
                    assert(out@.map_values(|m: BlockMetadata| m@) =~= prev.push(mm));
                    if let Ok(rest) = index_from(buf@, next as nat, data_end as nat) {
                        assert(prev + (seq![mm] + rest) =~= prev.push(mm) + rest);
                    }
                    if next >= data_end {
                        assert(prev + seq![mm] =~= prev.push(mm) + Seq::<BlockMetadataModel>::empty());
                    }
                }
                p = next;
            },
        }
    }
}

/// The metadata of the block with CID `cid` in `index`, the last one when
/// several carry it.
pub fn find_block<'a>(index: &'a Vec<BlockMetadata>, cid: &Cid) -> (r: Option<&'a BlockMetadata>)
    ensures
        r is None <==> forall|i: int| 0 <= i < index@.len() ==> (#[trigger] index@[i]).cid@ != cid@,
        r matches Some(m) ==> exists|i: int|
            0 <= i < index@.len() && index@[i] == *m && m.cid@ == cid@ && forall|j: int|
                i < j < index@.len() ==> (#[trigger] index@[j]).cid@ != cid@,
{
    let mut i: usize = index.len();
    while i > 0
        invariant
            i <= index.len(),
            forall|j: int| i <= j < index@.len() ==> (#[trigger] index@[j]).cid@ != cid@,
        decreases i,
    {
        i -= 1;
        if index[i].cid.same(cid) {
            return Some(&index[i]);
        }
    }
    None
}

} // verus!
