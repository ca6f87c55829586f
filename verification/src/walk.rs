//! Walking the tree under a root CID of a CAR payload, breadth first: a raw
//! block hands out its data, a DAG-PB node queues the blocks its links name,
//! each looked up in the payload's index when it is queued.

use std::collections::VecDeque;

use vstd::prelude::*;
use ipld_core::codec::Codec;
use ipld_dagpb::Error as PbError;
use crate::car::{find_block, read_block, spec_read_block, BlockMetadata, BlockMetadataModel, Error};
use crate::cid::{read_cid, spec_read_cid, Cid, CidModel, DAG_PB_CODE, RAW_CODE};

verus! {

/// The metadata of an index as values.
pub open spec fn index_model(v: Seq<BlockMetadata>) -> Seq<BlockMetadataModel> {
    v.map_values(|m: BlockMetadata| m@)
}

/// The metadata of the last block of `index` that carries `cid`, as a map
/// filled from the index in order keeps it.
pub open spec fn meta_of(index: Seq<BlockMetadataModel>, cid: CidModel) -> Option<BlockMetadataModel>
    decreases index.len(),
{
    if index.len() == 0 {
        None
    } else if index.last().cid == cid {
        Some(index.last())
    } else {
        meta_of(index.drop_last(), cid)
    }
}

proof fn lemma_meta_of_found(index: Seq<BlockMetadataModel>, cid: CidModel, i: int)
    requires
        0 <= i < index.len(),
        index[i].cid == cid,
        forall|j: int| i < j < index.len() ==> (#[trigger] index[j]).cid != cid,
    ensures
        meta_of(index, cid) == Some(index[i]),
    decreases index.len(),
{
    if i < index.len() - 1 {
        let shorter = index.drop_last();
        assert forall|j: int| i < j < shorter.len() implies (#[trigger] shorter[j]).cid != cid by {
            assert(shorter[j] == index[j]);
        }
        lemma_meta_of_found(shorter, cid, i);
    }
}

proof fn lemma_meta_of_absent(index: Seq<BlockMetadataModel>, cid: CidModel)
    requires
        forall|j: int| 0 <= j < index.len() ==> (#[trigger] index[j]).cid != cid,
    ensures
        meta_of(index, cid) is None,
    decreases index.len(),
{
    if index.len() > 0 {
        let shorter = index.drop_last();
        assert forall|j: int| 0 <= j < shorter.len() implies (#[trigger] shorter[j]).cid != cid by {
            assert(shorter[j] == index[j]);
        }
        assert(index.last() == index[index.len() - 1]);
        lemma_meta_of_absent(shorter, cid);
    }
}

/// A copy of the metadata of the block carrying `cid`, the last one when
/// several do.
fn lookup(index: &Vec<BlockMetadata>, cid: &Cid) -> (r: Option<BlockMetadata>)
    ensures
        match meta_of(index_model(index@), cid@) {
            None => r is None,
            Some(m) => r matches Some(x) && x@ == m,
        },
{
    let ghost idx = index_model(index@);
    match find_block(index, cid) {
        None => {
            proof {
                assert forall|j: int| 0 <= j < idx.len() implies (#[trigger] idx[j]).cid != cid@ by {
                    assert(idx[j] == index@[j]@);
                }
                lemma_meta_of_absent(idx, cid@);
            }
            None
        },
        Some(m) => {
            proof {
                let i = choose|i: int|
                    0 <= i < index@.len() && index@[i] == *m && m.cid@ == cid@ && forall|j: int|
                        i < j < index@.len() ==> (#[trigger] index@[j]).cid@ != cid@;
                assert forall|j: int| i < j < idx.len() implies (#[trigger] idx[j]).cid != cid@ by {
                    assert(idx[j] == index@[j]@);
                }
                assert(idx[i] == m@);
                lemma_meta_of_found(idx, cid@, i);
            }
            Some(
                BlockMetadata {
                    block_offset: m.block_offset,
                    cid: m.cid.copy(),
                    data_offset_source: m.data_offset_source,
                    data_size: m.data_size,
                },
            )
        },
    }
}

/// The data of the block framed at `offset` of `car`, or why it cannot be
/// read.
pub open spec fn read_data(car: Seq<u8>, offset: u64) -> Result<Seq<u8>, Error> {
    if offset > car.len() {
        Err(Error::IoError)
    } else {
        match spec_read_block(car.skip(offset as int)) {
            Ok((_, d, _)) => Ok(d),
            Err(Error::VarIntError) => Err(Error::VarIntError),
            Err(Error::CidError(e)) => Err(Error::CidError(e)),
            Err(_) => Err(Error::IoError),
        }
    }
}

pub(crate) fn read_data_at(car: &[u8], offset: u64) -> (r: Result<Vec<u8>, Error>)
    ensures
        match read_data(car@, offset) {
            Ok(d) => r matches Ok(x) && x@ == d,
            Err(e) => r == Err::<Vec<u8>, Error>(e),
        },
{
    if offset > car.len() as u64 {
        return Err(Error::IoError);
    }
    match read_block(car, offset as usize) {
        Ok((_, data, _)) => Ok(data),
        Err(e) => Err(e),
    }
}

/// The bytes of the CIDs that the links of the DAG-PB node encoded in
/// `bytes` name, in order, or nothing where `bytes` is no DAG-PB node.
pub uninterp spec fn dagpb_link_cids(bytes: Seq<u8>) -> Option<Seq<Seq<u8>>>;

#[verifier::external_type_specification]
#[verifier::external_body]
pub struct ExDagPbError(PbError);

/// Decodes a DAG-PB node with `ipld_dagpb`'s `DagPbCodec::decode_from_slice`
/// and hands back the bytes of the CID of each of its links, in order.
/// Claimed: a decoded node gives the function's value on the bytes, and the
/// decoding fails exactly where the function has none.
#[verifier::external_body]
fn dagpb_decode_links(bytes: &[u8]) -> (r: Result<Vec<Vec<u8>>, PbError>)
    ensures
        match r {
            Ok(links) => dagpb_link_cids(bytes@) == Some(links@.map_values(|l: Vec<u8>| l@)),
            Err(_) => dagpb_link_cids(bytes@) is None,
        },
{
    match <ipld_dagpb::DagPbCodec as Codec<ipld_dagpb::PbNode>>::decode_from_slice(bytes) {
        Ok(node) => Ok(node.links.iter().map(|l| l.cid.to_bytes()).collect()),
        Err(e) => Err(e),
    }
}

/// What one step of a walk comes to.
pub enum StepOutcome {
    /// Nothing is left to visit.
    Done,
    /// A raw block was visited: its data.
    Data(Seq<u8>),
    /// A DAG-PB node was visited: the metadata of the blocks its links name.
    Links(Seq<BlockMetadataModel>),
    /// A link names a CID that no block of the index carries.
    Missing(CidModel),
    /// The step failed with this error.
    Failed(Error),
}

/// Looking up, in order, the blocks named by the CID bytes `links`: the
/// first CID that cannot be read or has no block stops the lookup.
pub open spec fn link_outcome(index: Seq<BlockMetadataModel>, links: Seq<Seq<u8>>) -> StepOutcome
    decreases links.len(),
{
    if links.len() == 0 {
        StepOutcome::Links(Seq::empty())
    } else {
        match link_outcome(index, links.drop_last()) {
            StepOutcome::Links(ms) => match spec_read_cid(links.last()) {
                Err(e) => StepOutcome::Failed(Error::CidError(e)),
                Ok((c, _)) => match meta_of(index, c) {
                    None => StepOutcome::Missing(c),
                    Some(m) => StepOutcome::Links(ms.push(m)),
                },
            },
            other => other,
        }
    }
}

/// One step of a walk whose queue holds `pending`: the first block queued is
/// visited.
pub open spec fn walk_step(index: Seq<BlockMetadataModel>, car: Seq<u8>, pending: Seq<BlockMetadataModel>) -> StepOutcome {
    if pending.len() == 0 {
        StepOutcome::Done
    } else {
        let m = pending[0];
        if m.cid.codec == RAW_CODE {
            match read_data(car, m.block_offset) {
                Ok(d) => StepOutcome::Data(d),
                Err(e) => StepOutcome::Failed(e),
            }
        } else if m.cid.codec == DAG_PB_CODE {
            match read_data(car, m.block_offset) {
                Err(e) => StepOutcome::Failed(e),
                Ok(d) => match dagpb_link_cids(d) {
                    None => StepOutcome::Failed(Error::DagPbError),
                    Some(links) => link_outcome(index, links),
                },
            }
        } else {
            StepOutcome::Failed(Error::UnknownCidCodec(m.cid.codec))
        }
    }
}

proof fn lemma_link_outcome_kind(index: Seq<BlockMetadataModel>, links: Seq<Seq<u8>>)
    ensures
        !(link_outcome(index, links) is Done),
        !(link_outcome(index, links) is Data),
    decreases links.len(),
{
    if links.len() > 0 {
        lemma_link_outcome_kind(index, links.drop_last());
    }
}

proof fn lemma_link_outcome_stops(index: Seq<BlockMetadataModel>, links: Seq<Seq<u8>>, k: int)
    requires
        0 <= k <= links.len(),
        !(link_outcome(index, links.take(k)) is Links),
    ensures
        link_outcome(index, links) == link_outcome(index, links.take(k)),
    decreases links.len() - k,
{
    if k < links.len() {
        assert(links.take(k + 1).drop_last() =~= links.take(k));
        lemma_link_outcome_stops(index, links, k + 1);
    } else {
        assert(links.take(k) =~= links);
    }
}

/// The metadata of the blocks named by `links`, looked up in order.
fn link_metas(index: &Vec<BlockMetadata>, links: &Vec<Vec<u8>>) -> (r: Result<VecDeque<BlockMetadata>, Error>)
    ensures
        match link_outcome(index_model(index@), links@.map_values(|l: Vec<u8>| l@)) {
            StepOutcome::Links(ms) => r matches Ok(v) && index_model(v@) == ms,
            StepOutcome::Missing(c) => r matches Err(Error::MissingCid(x)) && x@ == c,
            StepOutcome::Failed(e) => r == Err::<VecDeque<BlockMetadata>, Error>(e),
            _ => false,
        },
{
    let ghost idx = index_model(index@);
    let ghost ls = links@.map_values(|l: Vec<u8>| l@);
    let mut out: VecDeque<BlockMetadata> = VecDeque::new();
    let mut i: usize = 0;
    proof {
        assert(ls.take(0) =~= Seq::<Seq<u8>>::empty());
        assert(index_model(out@) =~= Seq::<BlockMetadataModel>::empty());
        lemma_link_outcome_kind(idx, ls);
    }
    while i < links.len()
        invariant
            i <= links.len(),
            idx == index_model(index@),
            ls == links@.map_values(|l: Vec<u8>| l@),
            link_outcome(idx, ls.take(i as int)) == StepOutcome::Links(index_model(out@)),
            !(link_outcome(idx, ls) is Done),
            !(link_outcome(idx, ls) is Data),
        decreases links.len() - i,
    {
        proof {
            assert(ls.take(i + 1).drop_last() =~= ls.take(i as int));
            assert(ls.take(i + 1).last() == links@[i as int]@);
            assert(links@[i as int]@.skip(0) =~= links@[i as int]@);
        }
        let cid = match read_cid(links[i].as_slice(), 0) {
            Ok((c, _)) => c,
            Err(e) => {
                proof {
                    lemma_link_outcome_stops(idx, ls, i + 1);
                }
                return Err(Error::CidError(e));
            },
        };
        match lookup(index, &cid) {
            None => {
                proof {
                    lemma_link_outcome_stops(idx, ls, i + 1);
                }
                return Err(Error::MissingCid(cid));
            },
            Some(m) => {
                let ghost before = index_model(out@);
                let ghost mm = m@;
                out.push_back(m);
                proof {
                    assert(index_model(out@) =~= before.push(mm));
                }
            },
        }
        i += 1;
    }
    proof {
        assert(ls.take(ls.len() as int) =~= ls);
    }
    Ok(out)
}

/// What a step of a walk hands its caller.
pub enum WalkStep {
    /// The data of a raw block, to be written out.
    Data(Vec<u8>),
    /// A DAG-PB node was visited and the blocks it links queued.
    Links,
    /// The walk is over.
    Done,
}

/// A breadth-first walk of the tree under a root, over a payload and its
/// index.
pub struct TreeWalk {
    queue: VecDeque<BlockMetadata>,
}

impl TreeWalk {
    /// The blocks queued for a visit, first to be visited first.
    pub closed spec fn pending(&self) -> Seq<BlockMetadataModel> {
        index_model(self.queue@)
    }

    /// A walk from the block carrying `root`; there must be one.
    pub fn new(index: &Vec<BlockMetadata>, root: &Cid) -> (r: Result<TreeWalk, Error>)
        ensures
            match meta_of(index_model(index@), root@) {
                None => r matches Err(Error::MissingCid(x)) && x@ == root@,
                Some(m) => r matches Ok(w) && w.pending() == seq![m],
            },
    {
        match lookup(index, root) {
            None => Err(Error::MissingCid(root.copy())),
            Some(m) => {
                let ghost mm = m@;
                let mut queue: VecDeque<BlockMetadata> = VecDeque::new();
                queue.push_back(m);
                let w = TreeWalk { queue };
                proof {
                    assert(w.pending() =~= seq![mm]);
                }
                Ok(w)
            },
        }
    }

    /// Visits the first block queued: a raw block hands out its data, a
    /// DAG-PB node queues the blocks its links name; any other codec is an
    /// error. On an error the queue is left as it was.
    pub fn step(&mut self, index: &Vec<BlockMetadata>, car: &[u8]) -> (r: Result<WalkStep, Error>)
        ensures
            match walk_step(index_model(index@), car@, old(self).pending()) {
                StepOutcome::Done => r matches Ok(WalkStep::Done) && final(self).pending() == old(self).pending(),
                StepOutcome::Data(d) => r matches Ok(WalkStep::Data(x)) && x@ == d && final(self).pending()
                    == old(self).pending().drop_first(),
                StepOutcome::Links(ms) => r matches Ok(WalkStep::Links) && final(self).pending()
                    == old(self).pending().drop_first() + ms,
                StepOutcome::Missing(c) => r matches Err(Error::MissingCid(x)) && x@ == c && final(self).pending()
                    == old(self).pending(),
                StepOutcome::Failed(e) => r == Err::<WalkStep, Error>(e) && final(self).pending() == old(self).pending(),
            },
    {
        if self.queue.len() == 0 {
            return Ok(WalkStep::Done);
        }
        let offset = self.queue[0].block_offset;
        let codec = self.queue[0].cid.codec;
        proof {
            assert(self.pending()[0] == self.queue@[0]@);
        }
        if codec == RAW_CODE {
            let data = match read_data_at(car, offset) {
                Ok(d) => d,
                Err(e) => return Err(e),
            };
            let ghost before = self.queue@;
            self.queue.pop_front();
            proof {
                assert(self.pending() =~= index_model(before).drop_first());
            }
            Ok(WalkStep::Data(data))
        } else if codec == DAG_PB_CODE {
            let data = match read_data_at(car, offset) {
                Ok(d) => d,
                Err(e) => return Err(e),
            };
            let links = match dagpb_decode_links(data.as_slice()) {
                Ok(l) => l,
                Err(_) => return Err(Error::DagPbError),
            };
            let mut metas = match link_metas(index, &links) {
                Ok(m) => m,
                Err(e) => return Err(e),
            };
            let ghost before = self.queue@;
            let ghost added = metas@;
            self.queue.pop_front();
            self.queue.append(&mut metas);
            proof {
                assert(self.pending() =~= index_model(before).drop_first() + index_model(added));
            }
            Ok(WalkStep::Links)
        } else {
            Err(Error::UnknownCidCodec(codec))
        }
    }
}

} // verus!
