//! Balanced UnixFS trees: the contents of a file cut into chunks become the
//! leaves of a tree whose inner nodes link at most `width` children, each
//! node a block addressed by the SHA2-256 hash of its bytes.

use vstd::prelude::*;
use crate::cid::{Cid, CidModel, CidVersion, Multihash, MultihashModel, DAG_PB_CODE, RAW_CODE, SHA_256_CODE, cid_bytes};
use crate::hashing::{sha256, sha256_spec};
use crate::varint::{varint_encode, varint_decode, varint_len, lemma_varint_roundtrip, write_varint};
use ipld_core::codec::Codec;

verus! {

/// Sizes a parent records about a child. `raw_data_length` is the bytes of
/// file data below a leaf or a raw stem, and the length of the `File` message
/// of a UnixFS stem; `encoded_data_length` is the bytes of all the blocks
/// below the child, itself included.
#[derive(PartialEq, Eq, Structural, Clone, Copy, Debug)]
pub struct LinkInfo {
    pub raw_data_length: u64,
    pub encoded_data_length: u64,
}

/// The CIDv1 with codec `codec` of the SHA2-256 hash of `data`.
pub open spec fn sha256_cid(codec: u64, data: Seq<u8>) -> CidModel {
    CidModel {
        version: CidVersion::V1,
        codec,
        hash: MultihashModel { code: SHA_256_CODE, digest: sha256_spec(data) },
    }
}

/// The CIDv1 with codec `codec` of the SHA2-256 hash of `data`.
pub fn sha256_cid_of(codec: u64, data: &[u8]) -> (c: Cid)
    ensures
        c@ == sha256_cid(codec, data@),
        c.hash.digest@.len() == 32,
{
    Cid::new_v1(codec, Multihash::wrap(SHA_256_CODE, sha256(data)))
}

/// Protobuf encoding of the repeated `blocksizes` field (field 4, varint).
pub open spec fn blocksizes_bytes(b: Seq<u64>) -> Seq<u8>
    decreases b.len(),
{
    if b.len() == 0 {
        Seq::empty()
    } else {
        blocksizes_bytes(b.drop_last()) + seq![0x20u8] + varint_encode(b.last() as nat)
    }
}

/// Protobuf encoding of a UnixFS `Data` message of type `File`: the type
/// (field 1), the inline data if any (field 2), the file size (field 3) and
/// the block sizes (field 4), in field order.
pub open spec fn unixfs_file_bytes(filesize: u64, blocksizes: Seq<u64>, data: Option<Seq<u8>>) -> Seq<u8> {
    seq![0x08u8, 0x02u8] + match data {
        Some(d) => seq![0x12u8] + varint_encode(d.len()) + d,
        None => Seq::empty(),
    } + seq![0x18u8] + varint_encode(filesize as nat) + blocksizes_bytes(blocksizes)
}

/// Encodes a UnixFS `Data` message of type `File`.
pub fn encode_unixfs_file(filesize: u64, blocksizes: &Vec<u64>, data: Option<&[u8]>) -> (out: Vec<u8>)
    ensures
        out@ == unixfs_file_bytes(
            filesize,
            blocksizes@,
            match data {
                Some(d) => Some(d@),
                None => None,
            },
        ),
{
    let mut out: Vec<u8> = Vec::new();
    out.push(0x08);
    out.push(0x02);
    match data {
        Some(d) => {
            out.push(0x12);
            write_varint(&mut out, d.len() as u64);
            crate::cid::append_bytes(&mut out, d);
        },
        None => {},
    }
    out.push(0x18);
    write_varint(&mut out, filesize);
    let ghost head = out@;
    let mut i: usize = 0;
    while i < blocksizes.len()
        invariant
            i <= blocksizes.len(),
            out@ == head + blocksizes_bytes(blocksizes@.take(i as int)),
        decreases blocksizes.len() - i,
    {
        out.push(0x20);
        write_varint(&mut out, blocksizes[i]);
        proof {
            assert(blocksizes@.take(i + 1).drop_last() =~= blocksizes@.take(i as int));
        }
        i += 1;
    }
    proof {
        assert(blocksizes@.take(blocksizes@.len() as int) =~= blocksizes@);
    }
    out
}

/// A link of a DAG-PB node: the child's CID, an optional name and the size
/// of the blocks below it.
pub struct PbLink {
    pub cid: Cid,
    pub name: Option<String>,
    pub size: Option<u64>,
}

/// A link as the encoder sees it: the child's CID bytes, name and size.
pub open spec fn pb_link_model(l: PbLink) -> (Seq<u8>, Option<Seq<char>>, Option<u64>) {
    (
        cid_bytes(l.cid@),
        match l.name {
            Some(s) => Some(s@),
            None => None,
        },
        l.size,
    )
}

/// The DAG-PB encoding of a node with `links` and optional `data`.
pub uninterp spec fn dagpb_node_bytes(links: Seq<(Seq<u8>, Option<Seq<char>>, Option<u64>)>, data: Option<Seq<u8>>) -> Seq<u8>;

/// Encodes a DAG-PB node with `ipld_dagpb`'s `DagPbCodec::encode_to_vec`.
/// Claimed: the result is the function's value on the links (each a CIDv1
/// with a digest of at most 64 bytes) and the data; the encoding into a
/// vector does not fail.
#[verifier::external_body]
fn dagpb_encode(links: &Vec<PbLink>, data: Option<&[u8]>) -> (out: Vec<u8>)
    requires
        forall|i: int| 0 <= i < links@.len() ==> (#[trigger] links@[i]).cid.version == CidVersion::V1
            && links@[i].cid.hash.digest@.len() <= 64,
    ensures
        out@ == dagpb_node_bytes(
            links@.map_values(|l: PbLink| pb_link_model(l)),
            match data {
                Some(d) => Some(d@),
                None => None,
            },
        ),
{
    let links = links.iter().map(|l| ipld_dagpb::PbLink {
        cid: ipld_core::cid::Cid::new_v1(l.cid.codec,
            ipld_core::cid::multihash::Multihash::<64>::wrap(l.cid.hash.code, &l.cid.hash.digest).unwrap_or_default()),
        name: l.name.clone(),
        size: l.size,
    }).collect();
    let node = ipld_dagpb::PbNode { links, data: data.map(bytes::Bytes::copy_from_slice) };
    match <ipld_dagpb::DagPbCodec as Codec<ipld_dagpb::PbNode>>::encode_to_vec(&node) {
        Ok(v) => v,
        Err(_) => Vec::new(),
    }
}


/// A node of the tree: a leaf holds a chunk of the file, a stem links its
/// children.
pub enum TreeNode {
    Leaf(Vec<u8>),
    Stem(Vec<(Cid, LinkInfo)>),
}

/// Children as values.
pub open spec fn children_model(v: Seq<(Cid, LinkInfo)>) -> Seq<(CidModel, LinkInfo)> {
    v.map_values(|c: (Cid, LinkInfo)| (c.0@, c.1))
}

/// Sum of the raw data lengths of the first `n` children.
pub open spec fn sum_raw(ch: Seq<(CidModel, LinkInfo)>, n: nat) -> nat
    decreases n,
{
    if n == 0 {
        0
    } else {
        sum_raw(ch, (n - 1) as nat) + ch[n - 1].1.raw_data_length as nat
    }
}

/// Sum of the encoded lengths of the first `n` children.
pub open spec fn sum_enc(ch: Seq<(CidModel, LinkInfo)>, n: nat) -> nat
    decreases n,
{
    if n == 0 {
        0
    } else {
        sum_enc(ch, (n - 1) as nat) + ch[n - 1].1.encoded_data_length as nat
    }
}

/// The links of a stem over `ch`: named with the empty name in a UnixFS
/// tree, unnamed in a raw one, each with the child's encoded length.
pub open spec fn stem_links(ch: Seq<(CidModel, LinkInfo)>, raw: bool) -> Seq<(Seq<u8>, Option<Seq<char>>, Option<u64>)> {
    ch.map_values(
        |c: (CidModel, LinkInfo)|
            (
                cid_bytes(c.0),
                if raw {
                    None
                } else {
                    Some(Seq::<char>::empty())
                },
                Some(c.1.encoded_data_length),
            ),
    )
}

/// The block of a leaf: a raw block of the chunk, or a UnixFS file node
/// holding it.
pub open spec fn leaf_block(chunk: Seq<u8>, raw: bool) -> (CidModel, Seq<u8>, LinkInfo) {
    if raw {
        (sha256_cid(RAW_CODE, chunk), chunk, LinkInfo { raw_data_length: chunk.len() as u64, encoded_data_length: chunk.len() as u64 })
    } else {
        let data = unixfs_file_bytes(chunk.len() as u64, seq![chunk.len() as u64], Some(chunk));
        let enc = dagpb_node_bytes(Seq::empty(), Some(data));
        (
            sha256_cid(DAG_PB_CODE, enc),
            enc,
            LinkInfo { raw_data_length: chunk.len() as u64, encoded_data_length: enc.len() as u64 },
        )
    }
}

/// The inline data of a UnixFS `File` message, read as a decoder reads a
/// message whose data field (field 2) follows its type field: the length
/// varint after the field's tag, then that many bytes. `None` when the
/// message does not start with type `File` and a data field.
pub open spec fn file_message_data(m: Seq<u8>) -> Option<Seq<u8>> {
    if m.len() >= 3 && m[0] == 0x08u8 && m[1] == 0x02u8 && m[2] == 0x12u8 {
        match varint_decode(m.skip(3)) {
            Some((len, k)) => if 3 + k + len <= m.len() {
                Some(m.subrange((3 + k) as int, (3 + k + len) as int))
            } else {
                None
            },
            None => None,
        }
    } else {
        None
    }
}

/// A leaf keeps the file's bytes: a raw leaf's block is the chunk itself,
/// and a UnixFS leaf is a DAG-PB node without links whose `File` message
/// gives the chunk back as its data.
pub proof fn law_leaf_holds_chunk(chunk: Seq<u8>)
    requires
        chunk.len() <= u64::MAX,
    ensures
        leaf_block(chunk, true).1 == chunk,
        exists|m: Seq<u8>|
            #![trigger dagpb_node_bytes(Seq::empty(), Some(m))]
            leaf_block(chunk, false).1 == dagpb_node_bytes(Seq::empty(), Some(m)) && file_message_data(m)
                == Some(chunk),
{
    let len = chunk.len() as u64;
    let m = unixfs_file_bytes(len, seq![len], Some(chunk));
    let tail = seq![0x18u8] + varint_encode(len as nat) + blocksizes_bytes(seq![len]);
    assert(m =~= seq![0x08u8, 0x02u8, 0x12u8] + (varint_encode(len as nat) + (chunk + tail)));
    assert(m.skip(3) =~= varint_encode(len as nat) + (chunk + tail));
    lemma_varint_roundtrip(len, chunk + tail);
    let k = varint_len(len as nat);
    assert(m.subrange((3 + k) as int, (3 + k + len) as int) =~= chunk);
    assert(file_message_data(m) == Some(chunk));
    assert(leaf_block(chunk, false).1 == dagpb_node_bytes(Seq::empty(), Some(m)));
}

/// The block of a stem over `ch`, or `None` when one of its sizes does not
/// fit in 64 bits.
///
/// A raw stem is a DAG-PB node of unnamed links and no data; its raw length
/// is that of its children. A UnixFS stem also carries a `File` message with
/// the total size and the children's sizes; its raw length is the length of
/// that message.
pub open spec fn stem_block(ch: Seq<(CidModel, LinkInfo)>, raw: bool) -> Option<(CidModel, Seq<u8>, LinkInfo)> {
    let total_raw = sum_raw(ch, ch.len());
    let total_enc = sum_enc(ch, ch.len());
    if total_raw > u64::MAX || total_enc > u64::MAX {
        None
    } else if raw {
        let enc = dagpb_node_bytes(stem_links(ch, true), None);
        if total_enc + enc.len() > u64::MAX {
            None
        } else {
            Some((
                sha256_cid(DAG_PB_CODE, enc),
                enc,
                LinkInfo { raw_data_length: total_raw as u64, encoded_data_length: (total_enc + enc.len()) as u64 },
            ))
        }
    } else {
        let data = unixfs_file_bytes(
            total_raw as u64,
            ch.map_values(|c: (CidModel, LinkInfo)| c.1.raw_data_length),
            None,
        );
        let enc = dagpb_node_bytes(stem_links(ch, false), Some(data));
        if total_enc + enc.len() > u64::MAX {
            None
        } else {
            Some((
                sha256_cid(DAG_PB_CODE, enc),
                enc,
                LinkInfo { raw_data_length: data.len() as u64, encoded_data_length: (total_enc + enc.len()) as u64 },
            ))
        }
    }
}

/// The children's CIDs are CIDv1 with digests that the encoder accepts.
pub open spec fn children_wf(ch: Seq<(Cid, LinkInfo)>) -> bool {
    forall|i: int| 0 <= i < ch.len() ==> (#[trigger] ch[i]).0.version == CidVersion::V1 && ch[i].0.hash.digest@.len()
        <= 64
}

fn copy_cid(c: &Cid) -> (o: Cid)
    ensures
        o@ == c@,
        o.version == c.version,
{
    c.copy()
}

/// Sums the sizes of the children: raw lengths, their raw lengths one by
/// one, and encoded lengths; `None` when a sum does not fit in 64 bits.
fn child_totals(children: &Vec<(Cid, LinkInfo)>) -> (r: Option<(u64, Vec<u64>, u64)>)
    ensures
        ({
            let ch = children_model(children@);
            match r {
                None => sum_raw(ch, ch.len()) > u64::MAX || sum_enc(ch, ch.len()) > u64::MAX,
                Some((tr, sizes, te)) => tr == sum_raw(ch, ch.len()) && te == sum_enc(ch, ch.len()) && sizes@
                    == ch.map_values(|c: (CidModel, LinkInfo)| c.1.raw_data_length),
            }
        }),
{
    let ghost ch = children_model(children@);
    let mut tr: u64 = 0;
    let mut te: u64 = 0;
    let mut sizes: Vec<u64> = Vec::new();
    let mut i: usize = 0;
    while i < children.len()
        invariant
            i <= children.len(),
            ch == children_model(children@),
            tr == sum_raw(ch, i as nat),
            te == sum_enc(ch, i as nat),
            sizes@ == ch.map_values(|c: (CidModel, LinkInfo)| c.1.raw_data_length).take(i as int),
        decreases children.len() - i,
    {
        let info = children[i].1;
        proof {
            lemma_sums_monotone(ch, (i + 1) as nat, ch.len());
        }
        if tr > u64::MAX - info.raw_data_length || te > u64::MAX - info.encoded_data_length {
            return None;
        }
        tr = tr + info.raw_data_length;
        te = te + info.encoded_data_length;
        sizes.push(info.raw_data_length);
        proof {
            assert(ch.map_values(|c: (CidModel, LinkInfo)| c.1.raw_data_length).take(i + 1) =~= ch.map_values(
                |c: (CidModel, LinkInfo)| c.1.raw_data_length,
            ).take(i as int).push(info.raw_data_length));
        }
        i += 1;
    }
    proof {
        assert(ch.map_values(|c: (CidModel, LinkInfo)| c.1.raw_data_length).take(ch.len() as int) =~= ch.map_values(
            |c: (CidModel, LinkInfo)| c.1.raw_data_length,
        ));
    }
    Some((tr, sizes, te))
}

proof fn lemma_sums_monotone(ch: Seq<(CidModel, LinkInfo)>, k: nat, n: nat)
    requires
        k <= n,
    ensures
        sum_raw(ch, k) <= sum_raw(ch, n),
        sum_enc(ch, k) <= sum_enc(ch, n),
    decreases n - k,
{
    if k < n {
        lemma_sums_monotone(ch, k, (n - 1) as nat);
    }
}

impl TreeNode {
    /// Encodes a chunk as a UnixFS file leaf: a DAG-PB node with no links
    /// whose data is a `File` message holding the chunk.
    pub fn encode_unixfs_leaf_node(chunk: &[u8]) -> (r: ((Cid, Vec<u8>), LinkInfo))
        ensures
            ({
                let (c, b, info) = leaf_block(chunk@, false);
                r.0.0@ == c && r.0.1@ == b && r.1 == info
            }),
            r.0.0.version == CidVersion::V1,
            r.0.0.hash.digest@.len() == 32,
    {
        let len = chunk.len() as u64;
        let mut sizes: Vec<u64> = Vec::new();
        sizes.push(len);
        let data = encode_unixfs_file(len, &sizes, Some(chunk));
        let links: Vec<PbLink> = Vec::new();
        let encoded = dagpb_encode(&links, Some(data.as_slice()));
        proof {
            assert(links@.map_values(|l: PbLink| pb_link_model(l)) =~= Seq::empty());
            assert(sizes@ =~= seq![len]);
        }
        let cid = sha256_cid_of(DAG_PB_CODE, encoded.as_slice());
        let info = LinkInfo { raw_data_length: len, encoded_data_length: encoded.len() as u64 };
        ((cid, encoded), info)
    }

    /// Encodes a UnixFS file stem over `children`: links with empty names,
    /// and a `File` message with the total size and the children's sizes.
    /// `None` when a size does not fit in 64 bits.
    pub fn encode_unixfs_stem_node(children: Vec<(Cid, LinkInfo)>) -> (r: Option<((Cid, Vec<u8>), LinkInfo)>)
        requires
            children_wf(children@),
        ensures
            match stem_block(children_model(children@), false) {
                None => r is None,
                Some((c, b, info)) => r matches Some(x) && x.0.0@ == c && x.0.1@ == b && x.1 == info
                    && x.0.0.version == CidVersion::V1 && x.0.0.hash.digest@.len() == 32,
            },
    {
        let ghost ch = children_model(children@);
        let (total_raw, blocksizes, total_enc) = match child_totals(&children) {
            None => {
                return None;
            },
            Some(t) => t,
        };
        let mut links: Vec<PbLink> = Vec::new();
        let mut i: usize = 0;
        while i < children.len()
            invariant
                i <= children.len(),
                children_wf(children@),
                ch == children_model(children@),
                links@.len() == i,
                forall|j: int| 0 <= j < i ==> (#[trigger] links@[j]).cid.version == CidVersion::V1
                    && links@[j].cid.hash.digest@.len() <= 64,
                links@.map_values(|l: PbLink| pb_link_model(l)) == stem_links(ch, false).take(i as int),
            decreases children.len() - i,
        {
            let c = copy_cid(&children[i].0);
            let ghost prev = links@;
            links.push(PbLink { cid: c, name: Some(String::new()), size: Some(children[i].1.encoded_data_length) });
            proof {
                assert(links@.map_values(|l: PbLink| pb_link_model(l)) =~= prev.map_values(|l: PbLink| pb_link_model(l)).push(
                    pb_link_model(links@[i as int]),
                ));
                assert(stem_links(ch, false).take(i + 1) =~= stem_links(ch, false).take(i as int).push(
                    stem_links(ch, false)[i as int],
                ));
            }
            i += 1;
        }
        proof {
            assert(stem_links(ch, false).take(ch.len() as int) =~= stem_links(ch, false));
        }
        let data = encode_unixfs_file(total_raw, &blocksizes, None);
        let encoded = dagpb_encode(&links, Some(data.as_slice()));
        if total_enc > u64::MAX - encoded.len() as u64 {
            return None;
        }
        let cid = sha256_cid_of(DAG_PB_CODE, encoded.as_slice());
        let info = LinkInfo {
            raw_data_length: data.len() as u64,
            encoded_data_length: encoded.len() as u64 + total_enc,
        };
        Some(((cid, encoded), info))
    }

    /// Encodes the node in a raw tree: a leaf is a raw block of its chunk, a
    /// stem a DAG-PB node of unnamed links and no data. `None` when a size
    /// does not fit in 64 bits.
    pub fn encode_raw(&self) -> (r: Option<((Cid, Vec<u8>), LinkInfo)>)
        requires
            self matches TreeNode::Stem(ch) ==> children_wf(ch@),
        ensures
            match self {
                TreeNode::Leaf(chunk) => {
                    let (c, b, info) = leaf_block(chunk@, true);
                    r matches Some(x) && x.0.0@ == c && x.0.1@ == b && x.1 == info && x.0.0.version == CidVersion::V1
                        && x.0.0.hash.digest@.len() == 32
                },
                TreeNode::Stem(ch) => match stem_block(children_model(ch@), true) {
                    None => r is None,
                    Some((c, b, info)) => r matches Some(x) && x.0.0@ == c && x.0.1@ == b && x.1 == info
                        && x.0.0.version == CidVersion::V1 && x.0.0.hash.digest@.len() == 32,
                },
            },
    {
        match self {
            TreeNode::Leaf(chunk) => {
                let cid = sha256_cid_of(RAW_CODE, chunk.as_slice());
                let len = chunk.len() as u64;
                let bytes = crate::cid::copy_range(chunk.as_slice(), 0, chunk.len());
                proof {
                    assert(chunk@.subrange(0, chunk@.len() as int) =~= chunk@);
                }
                Some(((cid, bytes), LinkInfo { raw_data_length: len, encoded_data_length: len }))
            },
            TreeNode::Stem(children) => {
                let ghost ch = children_model(children@);
                let (total_raw, _sizes, total_enc) = match child_totals(children) {
                    None => {
                        return None;
                    },
                    Some(t) => t,
                };
                let mut links: Vec<PbLink> = Vec::new();
                let mut i: usize = 0;
                while i < children.len()
                    invariant
                        i <= children.len(),
                        children_wf(children@),
                        ch == children_model(children@),
                        links@.len() == i,
                        forall|j: int| 0 <= j < i ==> (#[trigger] links@[j]).cid.version == CidVersion::V1
                            && links@[j].cid.hash.digest@.len() <= 64,
                        links@.map_values(|l: PbLink| pb_link_model(l)) == stem_links(ch, true).take(i as int),
                    decreases children.len() - i,
                {
                    let c = copy_cid(&children[i].0);
                    let ghost prev = links@;
                    links.push(PbLink { cid: c, name: None, size: Some(children[i].1.encoded_data_length) });
                    proof {
                        assert(links@.map_values(|l: PbLink| pb_link_model(l)) =~= prev.map_values(
                            |l: PbLink| pb_link_model(l),
                        ).push(pb_link_model(links@[i as int])));
                        assert(stem_links(ch, true).take(i + 1) =~= stem_links(ch, true).take(i as int).push(
                            stem_links(ch, true)[i as int],
                        ));
                    }
                    i += 1;
                }
                proof {
                    assert(stem_links(ch, true).take(ch.len() as int) =~= stem_links(ch, true));
                }
                let encoded = dagpb_encode(&links, None);
                if total_enc > u64::MAX - encoded.len() as u64 {
                    return None;
                }
                let cid = sha256_cid_of(DAG_PB_CODE, encoded.as_slice());
                let info = LinkInfo { raw_data_length: total_raw, encoded_data_length: total_enc + encoded.len() as u64 };
                Some(((cid, encoded), info))
            },
        }
    }
}


/// Levels of a tree as values.
pub open spec fn levels_model(v: Seq<Vec<(Cid, LinkInfo)>>) -> Seq<Seq<(CidModel, LinkInfo)>> {
    v.map_values(|l: Vec<(Cid, LinkInfo)>| children_model(l@))
}

/// Blocks as values.
pub open spec fn blocks_model(v: Seq<(Cid, Vec<u8>)>) -> Seq<(CidModel, Seq<u8>)> {
    v.map_values(|b: (Cid, Vec<u8>)| (b.0@, b.1@))
}

/// Emits block `(c, b)` unless a block with CID `c` was emitted before.
pub open spec fn emit(
    seen: Seq<CidModel>,
    out: Seq<(CidModel, Seq<u8>)>,
    c: CidModel,
    b: Seq<u8>,
) -> (Seq<CidModel>, Seq<(CidModel, Seq<u8>)>) {
    if seen.contains(c) {
        (seen, out)
    } else {
        (seen.push(c), out.push((c, b)))
    }
}

/// The block of a leaf and its link.
pub open spec fn leaf_of(chunk: Seq<u8>, raw: bool) -> (CidModel, Seq<u8>, LinkInfo) {
    leaf_block(chunk, raw)
}

/// Closes full levels from `level` on, up to the `n` levels there were when
/// the leaf was added: a level with `width` or more links becomes a stem
/// linked from the level above, which is created when missing; the first
/// level with fewer links stops the climb. `None` when a stem's sizes do not
/// fit in 64 bits.
pub open spec fn cascade(
    levels: Seq<Seq<(CidModel, LinkInfo)>>,
    seen: Seq<CidModel>,
    out: Seq<(CidModel, Seq<u8>)>,
    width: nat,
    raw: bool,
    level: nat,
    n: nat,
) -> Option<(Seq<Seq<(CidModel, LinkInfo)>>, Seq<CidModel>, Seq<(CidModel, Seq<u8>)>)>
    decreases n - level,
{
    if level >= n || level >= levels.len() {
        Some((levels, seen, out))
    } else if levels[level as int].len() < width {
        Some((levels, seen, out))
    } else {
        match stem_block(levels[level as int], raw) {
            None => None,
            Some((c, b, info)) => {
                let (s2, o2) = emit(seen, out, c, b);
                let l2 = levels.update(level as int, Seq::empty());
                let l3 = if level + 1 == l2.len() {
                    l2.push(Seq::empty())
                } else {
                    l2
                };
                let l4 = l3.update((level + 1) as int, l3[(level + 1) as int].push((c, info)));
                cascade(l4, s2, o2, width, raw, level + 1, n)
            },
        }
    }
}

/// Adds the leaf of `chunk` to the tree: its block is emitted, it is linked
/// from the lowest level, and full levels are closed. Also the blocks
/// emitted, in order.
pub open spec fn tree_push(
    levels: Seq<Seq<(CidModel, LinkInfo)>>,
    seen: Seq<CidModel>,
    chunk: Seq<u8>,
    width: nat,
    raw: bool,
) -> Option<(Seq<Seq<(CidModel, LinkInfo)>>, Seq<CidModel>, Seq<(CidModel, Seq<u8>)>)> {
    let (c, b, info) = leaf_of(chunk, raw);
    let (s1, o1) = emit(seen, Seq::empty(), c, b);
    cascade(levels.update(0, levels[0].push((c, info))), s1, o1, width, raw, 0, levels.len())
}

/// Closes the tree from the lowest level up: each non-empty level becomes a
/// stem, linked from the next level when there is one. The blocks emitted,
/// in order, or `None` when a stem's sizes do not fit in 64 bits.
pub open spec fn tree_finish(
    levels: Seq<Seq<(CidModel, LinkInfo)>>,
    seen: Seq<CidModel>,
    out: Seq<(CidModel, Seq<u8>)>,
    raw: bool,
) -> Option<(Seq<CidModel>, Seq<(CidModel, Seq<u8>)>)>
    decreases levels.len(),
{
    if levels.len() == 0 {
        Some((seen, out))
    } else {
        let leftover = levels[0];
        let rest = levels.drop_first();
        if leftover.len() == 0 {
            tree_finish(rest, seen, out, raw)
        } else {
            match stem_block(leftover, raw) {
                None => None,
                Some((c, b, info)) => {
                    let (s2, o2) = emit(seen, out, c, b);
                    let rest2 = if rest.len() > 0 {
                        rest.update(0, rest[0].push((c, info)))
                    } else {
                        rest
                    };
                    tree_finish(rest2, s2, o2, raw)
                },
            }
        }
    }
}


/// Closes the tree: a tree of a single leaf has that leaf as its root and
/// needs no stem; any other tree is closed level by level.
pub open spec fn tree_close(
    levels: Seq<Seq<(CidModel, LinkInfo)>>,
    seen: Seq<CidModel>,
    out: Seq<(CidModel, Seq<u8>)>,
    raw: bool,
) -> Option<(Seq<CidModel>, Seq<(CidModel, Seq<u8>)>)> {
    if levels.len() == 1 && levels[0].len() == 1 {
        Some((seen, out))
    } else {
        tree_finish(levels, seen, out, raw)
    }
}

/// The tree after adding `chunks` in turn to an empty one: its levels, the
/// CIDs emitted and the blocks, in order.
pub open spec fn push_all(chunks: Seq<Seq<u8>>, width: nat, raw: bool) -> Option<
    (Seq<Seq<(CidModel, LinkInfo)>>, Seq<CidModel>, Seq<(CidModel, Seq<u8>)>),
>
    decreases chunks.len(),
{
    if chunks.len() == 0 {
        Some((seq![Seq::empty()], Seq::empty(), Seq::empty()))
    } else {
        match push_all(chunks.drop_last(), width, raw) {
            None => None,
            Some((lv, sn, out)) => match tree_push(lv, sn, chunks.last(), width, raw) {
                None => None,
                Some((lv2, sn2, o2)) => Some((lv2, sn2, out + o2)),
            },
        }
    }
}

/// The blocks of the balanced tree over `chunks`, in the order they are
/// built, or `None` when a size does not fit in 64 bits.
pub open spec fn build_tree(chunks: Seq<Seq<u8>>, width: nat, raw: bool) -> Option<Seq<(CidModel, Seq<u8>)>> {
    match push_all(chunks, width, raw) {
        None => None,
        Some((lv, sn, out)) => match tree_close(lv, sn, out, raw) {
            None => None,
            Some((_, o)) => Some(o),
        },
    }
}

proof fn lemma_push_all_none(cs: Seq<Seq<u8>>, k: nat, width: nat, raw: bool)
    requires
        k <= cs.len(),
        push_all(cs.take(k as int), width, raw) is None,
    ensures
        push_all(cs, width, raw) is None,
    decreases cs.len() - k,
{
    if k < cs.len() {
        assert(cs.take((k + 1) as int).drop_last() =~= cs.take(k as int));
        lemma_push_all_none(cs, k + 1, width, raw);
    } else {
        assert(cs.take(k as int) =~= cs);
    }
}

/// Closing a tree after blocks `prefix` emits the same blocks as closing it
/// from nothing, after `prefix`.
proof fn lemma_finish_prefix(
    levels: Seq<Seq<(CidModel, LinkInfo)>>,
    seen: Seq<CidModel>,
    prefix: Seq<(CidModel, Seq<u8>)>,
    raw: bool,
)
    ensures
        match (tree_finish(levels, seen, prefix, raw), tree_finish(levels, seen, Seq::empty(), raw)) {
            (None, None) => true,
            (Some((s1, o1)), Some((s2, o2))) => s1 == s2 && o1 == prefix + o2,
            _ => false,
        },
{
    assert(prefix + Seq::<(CidModel, Seq<u8>)>::empty() =~= prefix);
    lemma_finish_prefix2(levels, seen, prefix, Seq::empty(), raw);
}

/// Closing with blocks `prefix + mid` already out equals closing with `mid`
/// out, after `prefix`.
proof fn lemma_finish_prefix2(
    levels: Seq<Seq<(CidModel, LinkInfo)>>,
    seen: Seq<CidModel>,
    prefix: Seq<(CidModel, Seq<u8>)>,
    mid: Seq<(CidModel, Seq<u8>)>,
    raw: bool,
)
    ensures
        match (tree_finish(levels, seen, prefix + mid, raw), tree_finish(levels, seen, mid, raw)) {
            (None, None) => true,
            (Some((s1, o1)), Some((s2, o2))) => s1 == s2 && o1 == prefix + o2,
            _ => false,
        },
    decreases levels.len(),
{
    if levels.len() > 0 {
        let leftover = levels[0];
        let rest = levels.drop_first();
        if leftover.len() == 0 {
            lemma_finish_prefix2(rest, seen, prefix, mid, raw);
        } else {
            match stem_block(leftover, raw) {
                None => {},
                Some((c, b, info)) => {
                    let rest2 = if rest.len() > 0 {
                        rest.update(0, rest[0].push((c, info)))
                    } else {
                        rest
                    };
                    let (s2, o2) = emit(seen, mid, c, b);
                    if !seen.contains(c) {
                        assert((prefix + mid).push((c, b)) =~= prefix + mid.push((c, b)));
                    }
                    lemma_finish_prefix2(rest2, s2, prefix, o2, raw);
                },
            }
        }
    }
}

/// A balanced tree under construction: chunks are added one by one and
/// the tree is closed at the end. Blocks are emitted as soon as they are
/// built, each CID once.
pub struct BalancedTree {
    width: usize,
    raw: bool,
    levels: Vec<Vec<(Cid, LinkInfo)>>,
    seen: Vec<Cid>,
}

fn seen_contains(seen: &Vec<Cid>, c: &Cid) -> (r: bool)
    ensures
        r == seen@.map_values(|x: Cid| x@).contains(c@),
{
    let ghost s = seen@.map_values(|x: Cid| x@);
    let mut i: usize = 0;
    while i < seen.len()
        invariant
            i <= seen.len(),
            s == seen@.map_values(|x: Cid| x@),
            forall|j: int| 0 <= j < i ==> s[j] != c@,
        decreases seen.len() - i,
    {
        if seen[i].same(c) {
            proof {
                assert(s[i as int] == c@);
            }
            return true;
        }
        i += 1;
    }
    false
}

/// Emits `(cid, bytes)` unless its CID was seen before.
fn emit_block(seen: &mut Vec<Cid>, out: &mut Vec<(Cid, Vec<u8>)>, cid: &Cid, bytes: Vec<u8>)
    ensures
        (final(seen)@.map_values(|x: Cid| x@), blocks_model(final(out)@)) == emit(
            old(seen)@.map_values(|x: Cid| x@),
            blocks_model(old(out)@),
            cid@,
            bytes@,
        ),
{
    if !seen_contains(seen, cid) {
        let ghost s0 = seen@;
        let ghost o0 = out@;
        seen.push(cid.copy());
        out.push((cid.copy(), bytes));
        proof {
            assert(seen@.map_values(|x: Cid| x@) =~= s0.map_values(|x: Cid| x@).push(cid@));
            assert(blocks_model(out@) =~= blocks_model(o0).push((cid@, bytes@)));
        }
    }
}

/// The stem over `children` in a raw or a UnixFS tree.
fn build_stem(children: Vec<(Cid, LinkInfo)>, raw: bool) -> (r: Option<((Cid, Vec<u8>), LinkInfo)>)
    requires
        children_wf(children@),
    ensures
        match stem_block(children_model(children@), raw) {
            None => r is None,
            Some((c, b, info)) => r matches Some(x) && x.0.0@ == c && x.0.1@ == b && x.1 == info
                && x.0.0.version == CidVersion::V1 && x.0.0.hash.digest@.len() == 32,
        },
{
    if raw {
        TreeNode::Stem(children).encode_raw()
    } else {
        TreeNode::encode_unixfs_stem_node(children)
    }
}

impl BalancedTree {
    /// Width of the tree.
    pub closed spec fn width_view(&self) -> nat {
        self.width as nat
    }

    /// Whether the tree is raw rather than UnixFS.
    pub closed spec fn raw_view(&self) -> bool {
        self.raw
    }

    /// Open levels, lowest first.
    pub closed spec fn levels_view(&self) -> Seq<Seq<(CidModel, LinkInfo)>> {
        levels_model(self.levels@)
    }

    /// CIDs of the blocks emitted so far.
    pub closed spec fn seen_view(&self) -> Seq<CidModel> {
        self.seen@.map_values(|x: Cid| x@)
    }

    /// There is a lowest level, and every link is a CIDv1 the encoder accepts.
    pub closed spec fn wf(&self) -> bool {
        &&& self.levels@.len() >= 1
        &&& forall|i: int| 0 <= i < self.levels@.len() ==> children_wf(#[trigger] self.levels@[i]@)
    }

    /// An empty tree whose stems link at most `width` children; `raw` picks
    /// raw leaves and plain stems over UnixFS file nodes.
    pub fn new(width: usize, raw: bool) -> (t: BalancedTree)
        ensures
            t.wf(),
            t.width_view() == width,
            t.raw_view() == raw,
            t.levels_view() == seq![Seq::<(CidModel, LinkInfo)>::empty()],
            t.seen_view() == Seq::<CidModel>::empty(),
    {
        let mut levels: Vec<Vec<(Cid, LinkInfo)>> = Vec::new();
        levels.push(Vec::new());
        let t = BalancedTree { width, raw, levels, seen: Vec::new() };
        proof {
            assert(t.levels_view() =~~= seq![Seq::<(CidModel, LinkInfo)>::empty()]);
            assert(t.seen_view() =~= Seq::<CidModel>::empty());
        }
        t
    }

    /// Adds the next chunk of the file: its leaf, and the stems of the levels
    /// it fills. Returns the blocks built that were not emitted before, in
    /// order; `None` when a size does not fit in 64 bits, and the tree is
    /// then of no further use.
    pub fn push(&mut self, chunk: &[u8]) -> (r: Option<Vec<(Cid, Vec<u8>)>>)
        requires
            old(self).wf(),
        ensures
            final(self).width_view() == old(self).width_view(),
            final(self).raw_view() == old(self).raw_view(),
            match tree_push(
                old(self).levels_view(),
                old(self).seen_view(),
                chunk@,
                old(self).width_view(),
                old(self).raw_view(),
            ) {
                None => r is None,
                Some((lv, sn, out)) => {
                    &&& r matches Some(blocks) && blocks_model(blocks@) == out
                    &&& final(self).levels_view() == lv
                    &&& final(self).seen_view() == sn
                    &&& final(self).wf()
                },
            },
    {
        let ghost lv0 = self.levels_view();
        let ghost sn0 = self.seen_view();
        let mut out: Vec<(Cid, Vec<u8>)> = Vec::new();
        proof {
            assert(blocks_model(out@) =~= Seq::<(CidModel, Seq<u8>)>::empty());
        }
        let ((leaf_cid, leaf_bytes), leaf_info) = if self.raw {
            let node = TreeNode::Leaf(crate::cid::copy_range(chunk, 0, chunk.len()));
            proof {
                assert(chunk@.subrange(0, chunk@.len() as int) =~= chunk@);
            }
            match node.encode_raw() {
                Some(x) => x,
                None => {
                    return None;
                },
            }
        } else {
            TreeNode::encode_unixfs_leaf_node(chunk)
        };
        emit_block(&mut self.seen, &mut out, &leaf_cid, leaf_bytes);
        let ghost lp = leaf_of(chunk@, self.raw);
        self.levels[0].push((leaf_cid, leaf_info));
        proof {
            assert(self.levels_view() =~~= lv0.update(0, lv0[0].push((lp.0, lp.2))));
            assert forall|i: int| 0 <= i < self.levels@.len() implies children_wf(#[trigger] self.levels@[i]@) by {
                if i == 0 {
                    assert(forall|j: int| 0 <= j < self.levels@[0]@.len() - 1 ==> self.levels@[0]@[j] == old(self).levels@[0]@[j]);
                }
            }
        }
        let n = self.levels.len();
        let ghost total = tree_push(lv0, sn0, chunk@, self.width as nat, self.raw);
        let mut failed = false;
        let mut level: usize = 0;
        while level < n
            invariant_except_break
                !failed,
            invariant
                n >= 1,
                level <= n,
                n <= self.levels@.len(),
                self.width == old(self).width,
                self.raw == old(self).raw,
                self.levels@.len() >= 1,
                forall|i: int| 0 <= i < self.levels@.len() ==> children_wf(#[trigger] self.levels@[i]@),
                !failed ==> total == cascade(
                    self.levels_view(),
                    self.seen_view(),
                    blocks_model(out@),
                    self.width as nat,
                    self.raw,
                    level as nat,
                    n as nat,
                ),
                failed ==> total is None,
            ensures
                !failed ==> total == Some((self.levels_view(), self.seen_view(), blocks_model(out@))),
                failed ==> total is None,
            decreases n - level,
        {
            if self.levels[level].len() < self.width {
                break;
            }
            let ghost lv_before = self.levels_view();
            let mut children: Vec<(Cid, LinkInfo)> = Vec::new();
            std::mem::swap(&mut children, &mut self.levels[level]);
            let ghost lvb = self.levels_view();
            let ghost chm = children_model(children@);
            proof {
                assert(chm == lv_before[level as int]);
                assert(lvb =~~= lv_before.update(level as int, Seq::empty()));
            }
            match build_stem(children, self.raw) {
                None => {
                    failed = true;
                    break;
                },
                Some(((cid, bytes), info)) => {
                    emit_block(&mut self.seen, &mut out, &cid, bytes);
                    if level + 1 == self.levels.len() {
                        self.levels.push(Vec::new());
                    }
                    self.levels[level + 1].push((cid, info));
                    proof {
                        let l2 = lvb;
                        let l3 = if level + 1 == l2.len() {
                            l2.push(Seq::empty())
                        } else {
                            l2
                        };
                        assert(self.levels_view() =~~= l3.update(level + 1, l3[level + 1].push((cid@, info))));
                        assert forall|i: int| 0 <= i < self.levels@.len() implies children_wf(#[trigger] self.levels@[i]@) by {
                            if i == level + 1 {
                                let v = self.levels@[i]@;
                                assert forall|j: int| 0 <= j < v.len() implies (#[trigger] v[j]).0.version
                                    == CidVersion::V1 && v[j].0.hash.digest@.len() <= 64 by {
                                    if j < v.len() - 1 {
                                    }
                                }
                            }
                        }
                    }
                },
            }
            level += 1;
        }
        if failed {
            return None;
        }
        Some(out)
    }

    /// Closes the tree: a tree of a single leaf has it as its root;
    /// otherwise, from the lowest level up, each non-empty level becomes a
    /// stem linked from the level above. Returns the blocks built
    /// that were not emitted before, in order, the root last; `None` when a
    /// size does not fit in 64 bits.
    pub fn finish(self) -> (r: Option<Vec<(Cid, Vec<u8>)>>)
        requires
            self.wf(),
        ensures
            match tree_close(self.levels_view(), self.seen_view(), Seq::empty(), self.raw_view()) {
                None => r is None,
                Some((sn, out)) => r matches Some(b) && blocks_model(b@) == out,
            },
    {
        let raw = self.raw;
        if self.levels.len() == 1 && self.levels[0].len() == 1 {
            let out: Vec<(Cid, Vec<u8>)> = Vec::new();
            proof {
                assert(blocks_model(out@) =~= Seq::<(CidModel, Seq<u8>)>::empty());
            }
            return Some(out);
        }
        let ghost total = tree_finish(self.levels_view(), self.seen_view(), Seq::empty(), self.raw_view());
        let mut levels = self.levels;
        let mut seen = self.seen;
        let mut out: Vec<(Cid, Vec<u8>)> = Vec::new();
        proof {
            assert(blocks_model(out@) =~= Seq::<(CidModel, Seq<u8>)>::empty());
        }
        let mut failed = false;
        while levels.len() > 0
            invariant_except_break
                !failed,
            invariant
                forall|i: int| 0 <= i < levels@.len() ==> children_wf(#[trigger] levels@[i]@),
                !failed ==> total == tree_finish(
                    levels_model(levels@),
                    seen@.map_values(|x: Cid| x@),
                    blocks_model(out@),
                    raw,
                ),
                failed ==> total is None,
            ensures
                !failed ==> total == Some((seen@.map_values(|x: Cid| x@), blocks_model(out@))),
                failed ==> total is None,
            decreases levels.len(),
        {
            let ghost lv = levels_model(levels@);
            let leftover = levels.remove(0);
            proof {
                assert(levels_model(levels@) =~~= lv.drop_first());
                assert(children_model(leftover@) == lv[0]);
            }
            if leftover.len() == 0 {
                continue;
            }
            match build_stem(leftover, raw) {
                None => {
                    failed = true;
                    break;
                },
                Some(((cid, bytes), info)) => {
                    emit_block(&mut seen, &mut out, &cid, bytes);
                    if levels.len() > 0 {
                        let ghost before = levels_model(levels@);
                        levels[0].push((cid, info));
                        proof {
                            assert(levels_model(levels@) =~~= before.update(0, before[0].push((cid@, info))));
                            assert forall|i: int| 0 <= i < levels@.len() implies children_wf(#[trigger] levels@[i]@) by {
                                if i == 0 {
                                    let v = levels@[0]@;
                                    assert forall|j: int| 0 <= j < v.len() implies (#[trigger] v[j]).0.version
                                        == CidVersion::V1 && v[j].0.hash.digest@.len() <= 64 by {
                                        if j < v.len() - 1 {
                                        }
                                    }
                                }
                            }
                        }
                    }
                },
            }
        }
        if failed {
            return None;
        }
        Some(out)
    }
}

/// Builds the balanced tree of a file cut into `chunks`: every chunk is
/// added in turn, then the tree is closed. Returns the blocks in the order
/// they were built, each CID once and the root last; `None` when a size does
/// not fit in 64 bits.
pub fn stream_balanced_tree(chunks: &Vec<Vec<u8>>, width: usize, raw: bool) -> (r: Option<Vec<(Cid, Vec<u8>)>>)
    ensures
        r is None <==> build_tree(chunks@.map_values(|c: Vec<u8>| c@), width as nat, raw) is None,
        r matches Some(b) ==> build_tree(chunks@.map_values(|c: Vec<u8>| c@), width as nat, raw) == Some(blocks_model(b@)),
{
    let ghost cs = chunks@.map_values(|c: Vec<u8>| c@);
    let mut tree = BalancedTree::new(width, raw);
    let mut out: Vec<(Cid, Vec<u8>)> = Vec::new();
    let mut i: usize = 0;
    proof {
        assert(blocks_model(out@) =~= Seq::<(CidModel, Seq<u8>)>::empty());
        assert(cs.take(0) =~= Seq::<Seq<u8>>::empty());
    }
    while i < chunks.len()
        invariant
            i <= chunks.len(),
            cs == chunks@.map_values(|c: Vec<u8>| c@),
            tree.wf(),
            tree.width_view() == width,
            tree.raw_view() == raw,
            push_all(cs.take(i as int), width as nat, raw) == Some(
                (tree.levels_view(), tree.seen_view(), blocks_model(out@)),
            ),
        decreases chunks.len() - i,
    {
        let ghost before = blocks_model(out@);
        match tree.push(chunks[i].as_slice()) {
            None => {
                proof {
                    assert(cs.take(i + 1).drop_last() =~= cs.take(i as int));
                    lemma_push_all_none(cs, (i + 1) as nat, width as nat, raw);
                }
                return None;
            },
            Some(mut blocks) => {
                let ghost added = blocks_model(blocks@);
                out.append(&mut blocks);
                proof {
                    assert(cs.take(i + 1).drop_last() =~= cs.take(i as int));
                    assert(cs.take(i + 1).last() == chunks@[i as int]@);
                    assert(blocks_model(out@) =~= before + added);
                }
            },
        }
        i += 1;
    }
    proof {
        assert(cs.take(chunks.len() as int) =~= cs);
    }
    let ghost prefix = blocks_model(out@);
    proof {
        lemma_finish_prefix(tree.levels_view(), tree.seen_view(), prefix, raw);
        assert(prefix + Seq::<(CidModel, Seq<u8>)>::empty() =~= prefix);
    }
    match tree.finish() {
        None => None,
        Some(mut blocks) => {
            let ghost added = blocks_model(blocks@);
            out.append(&mut blocks);
            proof {
                assert(blocks_model(out@) =~= prefix + added);
            }
            Some(out)
        },
    }
}


/// The CIDs of blocks, in order.
pub open spec fn block_cids(out: Seq<(CidModel, Seq<u8>)>) -> Seq<CidModel> {
    out.map_values(|b: (CidModel, Seq<u8>)| b.0)
}

/// Each block is addressed by the SHA2-256 hash of its bytes, no two share
/// a CID, and none has a CID of `seen`.
pub open spec fn fresh_blocks(seen: Seq<CidModel>, out: Seq<(CidModel, Seq<u8>)>) -> bool {
    &&& forall|i: int| 0 <= i < out.len() ==> !seen.contains(#[trigger] out[i].0)
    &&& forall|i: int, j: int| 0 <= i < j < out.len() ==> (#[trigger] out[i]).0 != (#[trigger] out[j]).0
    &&& forall|i: int| 0 <= i < out.len() ==> (#[trigger] out[i]).0 == sha256_cid(out[i].0.codec, out[i].1)
}

proof fn lemma_emit_fresh(
    seen0: Seq<CidModel>,
    seen: Seq<CidModel>,
    out: Seq<(CidModel, Seq<u8>)>,
    c: CidModel,
    b: Seq<u8>,
)
    requires
        seen == seen0 + block_cids(out),
        fresh_blocks(seen0, out),
        c == sha256_cid(c.codec, b),
    ensures
        ({
            let (s2, o2) = emit(seen, out, c, b);
            &&& s2 == seen0 + block_cids(o2)
            &&& fresh_blocks(seen0, o2)
            &&& s2.contains(c)
            &&& forall|x: CidModel| seen.contains(x) ==> s2.contains(x)
        }),
{
    let (s2, o2) = emit(seen, out, c, b);
    if !seen.contains(c) {
        assert(block_cids(o2) =~= block_cids(out).push(c));
        assert(s2 =~= seen0 + block_cids(o2));
        assert(s2[s2.len() - 1] == c);
        assert forall|x: CidModel| seen.contains(x) implies s2.contains(x) by {
            let k = choose|k: int| 0 <= k < seen.len() && seen[k] == x;
            assert(s2[k] == x);
        }
        assert forall|i: int| 0 <= i < o2.len() implies !seen0.contains(#[trigger] o2[i].0) by {
            if i == out.len() {
                if seen0.contains(c) {
                    let k = choose|k: int| 0 <= k < seen0.len() && seen0[k] == c;
                    assert(seen[k] == c);
                }
            }
        }
        assert forall|i: int, j: int| 0 <= i < j < o2.len() implies (#[trigger] o2[i]).0 != (#[trigger] o2[j]).0 by {
            if j == out.len() {
                assert(seen[seen0.len() + i] == out[i].0);
            }
        }
    }
}

proof fn lemma_cascade_fresh(
    levels: Seq<Seq<(CidModel, LinkInfo)>>,
    seen0: Seq<CidModel>,
    seen: Seq<CidModel>,
    out: Seq<(CidModel, Seq<u8>)>,
    width: nat,
    raw: bool,
    level: nat,
    n: nat,
)
    requires
        seen == seen0 + block_cids(out),
        fresh_blocks(seen0, out),
    ensures
        cascade(levels, seen, out, width, raw, level, n) matches Some((l2, s2, o2)) ==> {
            &&& s2 == seen0 + block_cids(o2)
            &&& fresh_blocks(seen0, o2)
            &&& forall|x: CidModel| seen.contains(x) ==> s2.contains(x)
        },
    decreases n - level,
{
    if level >= n || level >= levels.len() {
    } else if levels[level as int].len() < width {
    } else {
        match stem_block(levels[level as int], raw) {
            None => {},
            Some((c, b, info)) => {
                lemma_emit_fresh(seen0, seen, out, c, b);
                let (s2, o2) = emit(seen, out, c, b);
                let l2 = levels.update(level as int, Seq::empty());
                let l3 = if level + 1 == l2.len() {
                    l2.push(Seq::empty())
                } else {
                    l2
                };
                let l4 = l3.update((level + 1) as int, l3[(level + 1) as int].push((c, info)));
                lemma_cascade_fresh(l4, seen0, s2, o2, width, raw, level + 1, n);
            },
        }
    }
}

proof fn lemma_finish_fresh(
    levels: Seq<Seq<(CidModel, LinkInfo)>>,
    seen0: Seq<CidModel>,
    seen: Seq<CidModel>,
    out: Seq<(CidModel, Seq<u8>)>,
    raw: bool,
)
    requires
        seen == seen0 + block_cids(out),
        fresh_blocks(seen0, out),
    ensures
        tree_finish(levels, seen, out, raw) matches Some((s2, o2)) ==> {
            &&& s2 == seen0 + block_cids(o2)
            &&& fresh_blocks(seen0, o2)
            &&& forall|x: CidModel| seen.contains(x) ==> s2.contains(x)
        },
    decreases levels.len(),
{
    if levels.len() > 0 {
        let leftover = levels[0];
        let rest = levels.drop_first();
        if leftover.len() == 0 {
            lemma_finish_fresh(rest, seen0, seen, out, raw);
        } else {
            match stem_block(leftover, raw) {
                None => {},
                Some((c, b, info)) => {
                    lemma_emit_fresh(seen0, seen, out, c, b);
                    let (s2, o2) = emit(seen, out, c, b);
                    let rest2 = if rest.len() > 0 {
                        rest.update(0, rest[0].push((c, info)))
                    } else {
                        rest
                    };
                    lemma_finish_fresh(rest2, seen0, s2, o2, raw);
                },
            }
        }
    }
}

proof fn lemma_push_fresh(
    levels: Seq<Seq<(CidModel, LinkInfo)>>,
    seen: Seq<CidModel>,
    chunk: Seq<u8>,
    width: nat,
    raw: bool,
)
    ensures
        tree_push(levels, seen, chunk, width, raw) matches Some((l2, s2, o2)) ==> {
            &&& s2 == seen + block_cids(o2)
            &&& fresh_blocks(seen, o2)
            &&& s2.contains(leaf_block(chunk, raw).0)
            &&& forall|x: CidModel| seen.contains(x) ==> s2.contains(x)
        },
{
    let (c, b, info) = leaf_of(chunk, raw);
    let empty = Seq::<(CidModel, Seq<u8>)>::empty();
    assert(seen =~= seen + block_cids(empty));
    lemma_emit_fresh(seen, seen, empty, c, b);
    let (s1, o1) = emit(seen, empty, c, b);
    lemma_cascade_fresh(levels.update(0, levels[0].push((c, info))), seen, s1, o1, width, raw, 0, levels.len());
}

proof fn lemma_push_all_fresh(chunks: Seq<Seq<u8>>, width: nat, raw: bool)
    ensures
        push_all(chunks, width, raw) matches Some((lv, sn, out)) ==> {
            &&& sn == block_cids(out)
            &&& fresh_blocks(Seq::empty(), out)
            &&& forall|k: int| 0 <= k < chunks.len() ==> sn.contains(#[trigger] leaf_block(chunks[k], raw).0)
        },
    decreases chunks.len(),
{
    if chunks.len() == 0 {
        assert(block_cids(Seq::<(CidModel, Seq<u8>)>::empty()) =~= Seq::<CidModel>::empty());
    } else {
        let init = chunks.drop_last();
        lemma_push_all_fresh(init, width, raw);
        if let Some((lv, sn, out)) = push_all(init, width, raw) {
            lemma_push_fresh(lv, sn, chunks.last(), width, raw);
            if let Some((lv2, sn2, o2)) = tree_push(lv, sn, chunks.last(), width, raw) {
                let all = out + o2;
                assert(block_cids(all) =~= block_cids(out) + block_cids(o2));
                assert forall|i: int, j: int| 0 <= i < j < all.len() implies (#[trigger] all[i]).0 != (
                #[trigger] all[j]).0 by {
                    if i < out.len() && j >= out.len() {
                        assert(sn[i] == out[i].0);
                        assert(!sn.contains(o2[j - out.len()].0));
                    }
                }
                assert forall|i: int| 0 <= i < all.len() implies (#[trigger] all[i]).0 == sha256_cid(
                    all[i].0.codec,
                    all[i].1,
                ) by {
                    if i >= out.len() {
                        assert(all[i] == o2[i - out.len()]);
                    }
                }
                assert forall|k: int| 0 <= k < chunks.len() implies sn2.contains(
                    #[trigger] leaf_block(chunks[k], raw).0,
                ) by {
                    if k < init.len() {
                        assert(init[k] == chunks[k]);
                        assert(sn.contains(leaf_block(init[k], raw).0));
                    }
                }
            }
        }
    }
}

/// The blocks of a balanced tree: each is addressed by the SHA2-256 hash of
/// its bytes, no CID is emitted twice (a node met again is linked but not
/// emitted again), and the leaf of every chunk is among them.
pub proof fn law_tree_blocks(chunks: Seq<Seq<u8>>, width: nat, raw: bool)
    ensures
        build_tree(chunks, width, raw) matches Some(blocks) ==> {
            &&& forall|i: int| 0 <= i < blocks.len() ==> (#[trigger] blocks[i]).0 == sha256_cid(
                blocks[i].0.codec,
                blocks[i].1,
            )
            &&& forall|i: int, j: int| 0 <= i < j < blocks.len() ==> (#[trigger] blocks[i]).0 != (
            #[trigger] blocks[j]).0
            &&& forall|k: int|
                0 <= k < chunks.len() ==> exists|i: int|
                    0 <= i < blocks.len() && (#[trigger] blocks[i]).0 == leaf_block(#[trigger] chunks[k], raw).0
        },
{
    lemma_push_all_fresh(chunks, width, raw);
    if let Some((lv, sn, out)) = push_all(chunks, width, raw) {
        let empty = Seq::<CidModel>::empty();
        assert(sn =~= empty + block_cids(out));
        lemma_finish_fresh(lv, empty, sn, out, raw);
        if let Some((s2, o2)) = tree_close(lv, sn, out, raw) {
            assert(s2 =~= block_cids(o2));
            assert forall|k: int| 0 <= k < chunks.len() implies exists|i: int|
                0 <= i < o2.len() && (#[trigger] o2[i]).0 == leaf_block(#[trigger] chunks[k], raw).0 by {
                assert(sn.contains(leaf_block(chunks[k], raw).0));
                assert(s2.contains(leaf_block(chunks[k], raw).0));
                let i = choose|i: int| 0 <= i < s2.len() && s2[i] == leaf_block(chunks[k], raw).0;
                assert(o2[i].0 == s2[i]);
            }
        }
    }
}

} // verus!
