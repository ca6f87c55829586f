//! The bookkeeping of a CARv2 writer that takes the trees of one or more
//! files: each distinct block is framed once, at the offset the writer has
//! reached, each file adds its root, and the headers and an index grouped by
//! hash function and digest length are made when it is finished. The caller
//! writes the frames and headers where they go.

use vstd::prelude::*;
use crate::car::{
    block_bytes, find_block, frames_len, header_encoded_len, header_v2, write_block, BlockMetadata, BlockMetadataModel,
    Characteristics, Error, Header, IndexEntry, V2Header, V2_HEADER_SIZE,
};
use crate::cid::{cid_bytes, copy_range, Cid, CidModel};
use crate::varint::{lemma_u64_varint_len, required_space};

verus! {

/// A writer's state as values: the offset it has reached, the blocks it has
/// framed, and the frames made, in order.
pub struct WriterModel {
    pub position: int,
    pub blocks: Seq<BlockMetadataModel>,
    pub frames: Seq<Seq<u8>>,
}

/// Whether a block with CID `c` is among `blocks`.
pub open spec fn has_block(blocks: Seq<BlockMetadataModel>, c: CidModel) -> bool {
    exists|i: int| 0 <= i < blocks.len() && (#[trigger] blocks[i]).cid == c
}

/// The writer after it is offered the node `(c, d)`: a block already framed
/// is skipped, another is framed at the offset reached, its data starting
/// after the frame's length prefix and CID.
pub open spec fn write_node(st: WriterModel, c: CidModel, d: Seq<u8>) -> WriterModel {
    if has_block(st.blocks, c) {
        st
    } else {
        let f = block_bytes(c, d);
        WriterModel {
            position: st.position + f.len(),
            blocks: st.blocks.push(
                BlockMetadataModel {
                    block_offset: st.position as u64,
                    cid: c,
                    data_offset_source: (st.position + f.len() - d.len()) as u64,
                    data_size: d.len() as u64,
                },
            ),
            frames: st.frames.push(f),
        }
    }
}

/// The writer after it is offered `nodes` in order.
pub open spec fn write_nodes(st: WriterModel, nodes: Seq<(CidModel, Seq<u8>)>) -> WriterModel
    decreases nodes.len(),
{
    if nodes.len() == 0 {
        st
    } else {
        write_node(write_nodes(st, nodes.drop_last()), nodes.last().0, nodes.last().1)
    }
}

proof fn lemma_write_nodes_grows(st: WriterModel, nodes: Seq<(CidModel, Seq<u8>)>, k: int)
    requires
        0 <= k <= nodes.len(),
    ensures
        write_nodes(st, nodes.take(k)).position <= write_nodes(st, nodes).position,
    decreases nodes.len() - k,
{
    if k < nodes.len() {
        let longer = nodes.take(k + 1);
        assert(longer.drop_last() =~= nodes.take(k));
        lemma_write_nodes_grows(st, nodes, k + 1);
    } else {
        assert(nodes.take(k) =~= nodes);
    }
}

proof fn lemma_frames_len_push(s: Seq<BlockMetadata>, x: BlockMetadata, n: nat)
    requires
        n <= s.len(),
    ensures
        frames_len(s.push(x), n) == frames_len(s, n),
    decreases n,
{
    if n > 0 {
        lemma_frames_len_push(s, x, (n - 1) as nat);
        assert(s.push(x)[n - 1] == s[n - 1]);
    }
}

/// The nodes of a tree as values.
pub open spec fn nodes_model(v: Seq<(Cid, Vec<u8>)>) -> Seq<(CidModel, Seq<u8>)> {
    v.map_values(|n: (Cid, Vec<u8>)| (n.0@, n.1@))
}

/// Frames as values.
pub open spec fn frames_model(v: Seq<Vec<u8>>) -> Seq<Seq<u8>> {
    v.map_values(|f: Vec<u8>| f@)
}

/// The bookkeeping of a CARv2 writer: the offset reached in the file, the
/// blocks framed so far and the roots of the files written.
pub struct FileWriter {
    position: u64,
    blocks: Vec<BlockMetadata>,
    roots: Vec<Cid>,
}

impl FileWriter {
    /// The offset reached in the file.
    pub closed spec fn position_view(&self) -> nat {
        self.position as nat
    }

    /// The blocks framed so far, in the order they were framed.
    pub closed spec fn blocks_view(&self) -> Seq<BlockMetadataModel> {
        self.blocks@.map_values(|m: BlockMetadata| m@)
    }

    /// The roots of the files written.
    pub closed spec fn roots_view(&self) -> Seq<CidModel> {
        self.roots@.map_values(|c: Cid| c@)
    }

    /// The offset reached is past the headers and the frames of the blocks,
    /// which all start past the CARv2 header.
    pub closed spec fn wf(&self) -> bool {
        &&& self.position == V2_HEADER_SIZE + header_encoded_len(1) + frames_len(self.blocks@, self.blocks@.len())
        &&& forall|i: int|
            0 <= i < self.blocks@.len() ==> (#[trigger] self.blocks@[i]).cid.hash.digest@.len() <= 255
                && self.blocks@[i].block_offset >= V2_HEADER_SIZE && cid_bytes(self.blocks@[i].cid@).len()
                + self.blocks@[i].data_size + 10 <= u64::MAX
    }

    /// The metadata of the blocks framed so far, in the order they were
    /// framed.
    pub fn blocks(&self) -> (b: &Vec<BlockMetadata>)
        ensures
            b@.map_values(|m: BlockMetadata| m@) == self.blocks_view(),
    {
        &self.blocks
    }

    /// The writer's state as values, with no frames made yet.
    pub open spec fn start_model(&self) -> WriterModel {
        WriterModel { position: self.position_view() as int, blocks: self.blocks_view(), frames: Seq::empty() }
    }

    /// A writer that has written the placeholder CARv2 header and a
    /// placeholder CARv1 header with one root.
    pub fn new() -> (w: FileWriter)
        ensures
            w.wf(),
            w.position_view() == V2_HEADER_SIZE + header_encoded_len(1),
            w.blocks_view() == Seq::<BlockMetadataModel>::empty(),
            w.roots_view() == Seq::<CidModel>::empty(),
    {
        let n = Header::default().encoded_len();
        proof {
            lemma_u64_varint_len(58);
        }
        let w = FileWriter { position: V2_HEADER_SIZE + n as u64, blocks: Vec::new(), roots: Vec::new() };
        proof {
            assert(w.blocks_view() =~= Seq::<BlockMetadataModel>::empty());
            assert(w.roots_view() =~= Seq::<CidModel>::empty());
        }
        w
    }

    /// Writes the tree of a file, given as its nodes in the order they were
    /// built, the last one its root: returns the frames to append to the
    /// file, those of the blocks not framed before, and adds the root. A
    /// file with no node has no root.
    pub fn write_from(&mut self, nodes: &Vec<(Cid, Vec<u8>)>) -> (r: Result<Vec<Vec<u8>>, Error>)
        requires
            old(self).wf(),
            forall|i: int|
                0 <= i < nodes@.len() ==> (#[trigger] nodes@[i]).0.hash.digest@.len() <= 255 && cid_bytes(
                    nodes@[i].0@,
                ).len() + nodes@[i].1@.len() <= usize::MAX,
            write_nodes(old(self).start_model(), nodes_model(nodes@)).position <= u64::MAX,
        ensures
            final(self).wf(),
            nodes@.len() == 0 ==> (r matches Err(Error::EmptyRootsError) && final(self).position_view()
                == old(self).position_view() && final(self).blocks_view() == old(self).blocks_view()
                && final(self).roots_view() == old(self).roots_view()),
            nodes@.len() > 0 ==> {
                let end = write_nodes(old(self).start_model(), nodes_model(nodes@));
                &&& r matches Ok(frames) && frames_model(frames@) == end.frames
                &&& final(self).position_view() == end.position
                &&& final(self).blocks_view() == end.blocks
                &&& final(self).roots_view() == old(self).roots_view().push(nodes@[nodes@.len() - 1].0@)
            },
    {
        if nodes.len() == 0 {
            return Err(Error::EmptyRootsError);
        }
        let ghost st0 = self.start_model();
        let ghost ns = nodes_model(nodes@);
        let ghost roots0 = self.roots_view();
        let mut frames: Vec<Vec<u8>> = Vec::new();
        let mut i: usize = 0;
        proof {
            assert(ns.take(0) =~= Seq::<(CidModel, Seq<u8>)>::empty());
            assert(frames_model(frames@) =~= Seq::<Seq<u8>>::empty());
        }
        while i < nodes.len()
            invariant
                i <= nodes.len(),
                self.wf(),
                ns == nodes_model(nodes@),
                self.roots_view() == roots0,
                forall|j: int|
                    0 <= j < nodes@.len() ==> (#[trigger] nodes@[j]).0.hash.digest@.len() <= 255 && cid_bytes(
                        nodes@[j].0@,
                    ).len() + nodes@[j].1@.len() <= usize::MAX,
                write_nodes(st0, ns).position <= u64::MAX,
                ({
                    let cur = write_nodes(st0, ns.take(i as int));
                    &&& cur.position == self.position_view()
                    &&& cur.blocks == self.blocks_view()
                    &&& cur.frames == frames_model(frames@)
                }),
            decreases nodes.len() - i,
        {
            let ghost before = write_nodes(st0, ns.take(i as int));
            proof {
                assert(ns.take(i + 1).drop_last() =~= ns.take(i as int));
                assert(ns.take(i + 1).last() == (nodes@[i as int].0@, nodes@[i as int].1@));
                lemma_write_nodes_grows(st0, ns, i + 1);
            }
            let cid = &nodes[i].0;
            let data = &nodes[i].1;
            match find_block(&self.blocks, cid) {
                Some(m) => {
                    proof {
                        let k = choose|k: int|
                            0 <= k < self.blocks@.len() && self.blocks@[k] == *m && m.cid@ == cid@ && forall|j: int|
                                k < j < self.blocks@.len() ==> (#[trigger] self.blocks@[j]).cid@ != cid@;
                        assert(self.blocks_view()[k].cid == cid@);
                        assert(has_block(before.blocks, cid@));
                    }
                },
                None => {
                    proof {
                        assert forall|k: int| 0 <= k < before.blocks.len() implies (#[trigger] before.blocks[k]).cid
                            != cid@ by {
                            assert(before.blocks[k] == self.blocks@[k]@);
                        }
                        assert(!has_block(before.blocks, cid@));
                    }
                    let mut frame: Vec<u8> = Vec::new();
                    let written = write_block(&mut frame, cid, data.as_slice());
                    proof {
                        assert(frame@ =~= block_bytes(cid@, data@));
                    }
                    let offset = self.position;
                    self.position = self.position + written as u64;
                    let ghost old_blocks = self.blocks@;
                    let m = BlockMetadata {
                        block_offset: offset,
                        cid: cid.copy(),
                        data_offset_source: self.position - data.len() as u64,
                        data_size: data.len() as u64,
                    };
                    self.blocks.push(m);
                    let ghost old_frames = frames@;
                    frames.push(frame);
                    proof {
                        assert(self.blocks_view() =~= before.blocks.push(self.blocks@[old_blocks.len() as int]@));
                        assert(frames_model(frames@) =~= frames_model(old_frames).push(block_bytes(cid@, data@)));
                        lemma_frames_len_push(old_blocks, self.blocks@[old_blocks.len() as int], old_blocks.len());
                        assert(self.blocks@ == old_blocks.push(self.blocks@[old_blocks.len() as int]));
                        assert forall|k: int| 0 <= k < self.blocks@.len() implies (#[trigger] self.blocks@[k]).cid.hash.digest@.len()
                            <= 255 && self.blocks@[k].block_offset >= V2_HEADER_SIZE && cid_bytes(self.blocks@[k].cid@).len()
                            + self.blocks@[k].data_size + 10 <= u64::MAX by {
                            if k < old_blocks.len() {
                                assert(self.blocks@[k] == old_blocks[k]);
                            }
                        }
                    }
                },
            }
            i += 1;
        }
        proof {
            assert(ns.take(nodes@.len() as int) =~= ns);
        }
        let root = nodes[nodes.len() - 1].0.copy();
        self.roots.push(root);
        proof {
            assert(self.roots_view() =~= roots0.push(nodes@[nodes@.len() - 1].0@));
        }
        Ok(frames)
    }
}


/// The entry of a block in a CARv2 index: its digest and the offset of its
/// frame from the start of the CARv1 payload.
pub open spec fn index_entry_of(m: BlockMetadataModel) -> (Seq<u8>, u64) {
    (m.cid.hash.digest, (m.block_offset - V2_HEADER_SIZE) as u64)
}

/// Whether block `m` is hashed with `code` into a digest of `width` bytes.
pub open spec fn in_bucket(m: BlockMetadataModel, code: u64, width: nat) -> bool {
    m.cid.hash.code == code && m.cid.hash.digest.len() == width
}

/// The index entries of the blocks hashed with `code` into digests of
/// `width` bytes, in the order of `blocks`.
pub open spec fn entries_of(blocks: Seq<BlockMetadataModel>, code: u64, width: nat) -> Seq<(Seq<u8>, u64)>
    decreases blocks.len(),
{
    if blocks.len() == 0 {
        Seq::empty()
    } else {
        let prev = entries_of(blocks.drop_last(), code, width);
        if in_bucket(blocks.last(), code, width) {
            prev.push(index_entry_of(blocks.last()))
        } else {
            prev
        }
    }
}

/// The groups of one hash function: digest widths in increasing order, each
/// with the entries of its blocks, none empty.
pub open spec fn widths_grouped(blocks: Seq<BlockMetadataModel>, code: u64, ws: Seq<(u32, Seq<(Seq<u8>, u64)>)>) -> bool {
    &&& ws.len() > 0
    &&& forall|a: int, b: int| 0 <= a < b < ws.len() ==> (#[trigger] ws[a]).0 < (#[trigger] ws[b]).0
    &&& forall|a: int|
        0 <= a < ws.len() ==> (#[trigger] ws[a]).1 == entries_of(blocks, code, ws[a].0 as nat) && ws[a].1.len() > 0
}

/// Whether the groups `g` have a group for hash function `code` and digest
/// width `width`.
pub open spec fn has_bucket(g: Seq<(u64, Seq<(u32, Seq<(Seq<u8>, u64)>)>)>, code: u64, width: nat) -> bool {
    exists|i: int, a: int|
        #![trigger g[i].1[a]]
        0 <= i < g.len() && 0 <= a < g[i].1.len() && g[i].0 == code && g[i].1[a].0 == width
}

/// A multihash index of `blocks`: hash functions in increasing order, each
/// with its widths grouped, and a group for every block.
pub open spec fn grouped(blocks: Seq<BlockMetadataModel>, g: Seq<(u64, Seq<(u32, Seq<(Seq<u8>, u64)>)>)>) -> bool {
    &&& forall|i: int, j: int| 0 <= i < j < g.len() ==> (#[trigger] g[i]).0 < (#[trigger] g[j]).0
    &&& forall|i: int| 0 <= i < g.len() ==> widths_grouped(blocks, (#[trigger] g[i]).0, g[i].1)
    &&& forall|k: int|
        0 <= k < blocks.len() ==> has_bucket(g, (#[trigger] blocks[k]).cid.hash.code, blocks[k].cid.hash.digest.len())
}

proof fn lemma_entries_push(s: Seq<BlockMetadataModel>, m: BlockMetadataModel, code: u64, width: nat)
    ensures
        entries_of(s.push(m), code, width) == if in_bucket(m, code, width) {
            entries_of(s, code, width).push(index_entry_of(m))
        } else {
            entries_of(s, code, width)
        },
{
    assert(s.push(m).drop_last() =~= s);
}

proof fn lemma_entries_absent(s: Seq<BlockMetadataModel>, code: u64, width: nat)
    requires
        forall|k: int| 0 <= k < s.len() ==> !in_bucket(#[trigger] s[k], code, width),
    ensures
        entries_of(s, code, width) == Seq::<(Seq<u8>, u64)>::empty(),
    decreases s.len(),
{
    if s.len() > 0 {
        let init = s.drop_last();
        assert forall|k: int| 0 <= k < init.len() implies !in_bucket(#[trigger] init[k], code, width) by {
            assert(init[k] == s[k]);
        }
        assert(!in_bucket(s[s.len() - 1], code, width));
        lemma_entries_absent(init, code, width);
    }
}

/// A group of another bucket than that of `m` is kept when `m` is added.
proof fn lemma_widths_kept(s: Seq<BlockMetadataModel>, m: BlockMetadataModel, code: u64, ws: Seq<(u32, Seq<(Seq<u8>, u64)>)>)
    requires
        widths_grouped(s, code, ws),
        forall|a: int| 0 <= a < ws.len() ==> !in_bucket(m, code, (#[trigger] ws[a]).0 as nat),
    ensures
        widths_grouped(s.push(m), code, ws),
{
    assert forall|a: int| 0 <= a < ws.len() implies (#[trigger] ws[a]).1 == entries_of(s.push(m), code, ws[a].0 as nat)
        && ws[a].1.len() > 0 by {
        lemma_entries_push(s, m, code, ws[a].0 as nat);
    }
}

/// The blocks of a bucket that the index has no group for: none.
proof fn lemma_bucket_empty(s: Seq<BlockMetadataModel>, g: Seq<(u64, Seq<(u32, Seq<(Seq<u8>, u64)>)>)>, code: u64, width: nat)
    requires
        grouped(s, g),
        !has_bucket(g, code, width),
    ensures
        entries_of(s, code, width) == Seq::<(Seq<u8>, u64)>::empty(),
{
    assert forall|k: int| 0 <= k < s.len() implies !in_bucket(#[trigger] s[k], code, width) by {
        if in_bucket(s[k], code, width) {
            assert(has_bucket(g, s[k].cid.hash.code, s[k].cid.hash.digest.len()));
        }
    }
    lemma_entries_absent(s, code, width);
}

/// Adding block `m` whose hash function has no group yet: a new group for
/// it goes at position `p`.
proof fn lemma_group_new_code(
    s: Seq<BlockMetadataModel>,
    m: BlockMetadataModel,
    g: Seq<(u64, Seq<(u32, Seq<(Seq<u8>, u64)>)>)>,
    p: int,
)
    requires
        grouped(s, g),
        0 <= p <= g.len(),
        forall|j: int| 0 <= j < p ==> (#[trigger] g[j]).0 < m.cid.hash.code,
        p < g.len() ==> g[p].0 > m.cid.hash.code,
        m.cid.hash.digest.len() <= u32::MAX,
    ensures
        grouped(
            s.push(m),
            g.insert(p, (m.cid.hash.code, seq![(m.cid.hash.digest.len() as u32, seq![index_entry_of(m)])])),
        ),
{
    let code = m.cid.hash.code;
    let width = m.cid.hash.digest.len();
    let ng = (code, seq![(width as u32, seq![index_entry_of(m)])]);
    let g2 = g.insert(p, ng);
    g.insert_ensures(p, ng);
    assert forall|j: int| 0 <= j < g.len() implies (#[trigger] g[j]).0 != code by {
        if j >= p && p < g.len() {
            assert(j == p || g[p].0 < g[j].0);
        }
    }
    assert(!has_bucket(g, code, width));
    lemma_bucket_empty(s, g, code, width);
    lemma_entries_push(s, m, code, width);
    assert forall|i: int, j: int| 0 <= i < j < g2.len() implies (#[trigger] g2[i]).0 < (#[trigger] g2[j]).0 by {
        if j < p {
        } else if j == p {
            assert(g2[i] == g[i]);
        } else if i < p {
            assert(g2[j] == g[j - 1]);
            if p < g.len() {
                assert(p == j - 1 || g[p].0 < g[j - 1].0);
            }
        } else if i == p {
            assert(g2[j] == g[j - 1]);
            assert(p == j - 1 || g[p].0 < g[j - 1].0);
        } else {
            assert(g2[i] == g[i - 1]);
            assert(g2[j] == g[j - 1]);
        }
    }
    assert forall|i: int| 0 <= i < g2.len() implies widths_grouped(s.push(m), (#[trigger] g2[i]).0, g2[i].1) by {
        if i == p {
            let ws = g2[i].1;
            assert(ws[0].1 == entries_of(s.push(m), code, ws[0].0 as nat));
        } else {
            let gi = if i < p { g[i] } else { g[i - 1] };
            assert(g2[i] == gi);
            assert(gi.0 != code);
            lemma_widths_kept(s, m, gi.0, gi.1);
        }
    }
    assert forall|k: int| 0 <= k < s.push(m).len() implies has_bucket(
        g2,
        (#[trigger] s.push(m)[k]).cid.hash.code,
        s.push(m)[k].cid.hash.digest.len(),
    ) by {
        if k < s.len() {
            let b = s[k];
            assert(s.push(m)[k] == b);
            assert(has_bucket(g, b.cid.hash.code, b.cid.hash.digest.len()));
            let (i, a) = choose|i: int, a: int|
                #![trigger g[i].1[a]]
                0 <= i < g.len() && 0 <= a < g[i].1.len() && g[i].0 == b.cid.hash.code && g[i].1[a].0
                    == b.cid.hash.digest.len();
            if i < p {
                assert(g2[i].1[a] == g[i].1[a]);
            } else {
                assert(g2[i + 1] == g[i]);
                assert(g2[i + 1].1[a] == g[i].1[a]);
            }
        } else {
            assert(g2[p].1[0].0 == width);
        }
    }
}

/// Adding block `m` whose hash function has a group, at `p`, but whose
/// digest width has none: a new width group for it goes at position `q`.
proof fn lemma_group_new_width(
    s: Seq<BlockMetadataModel>,
    m: BlockMetadataModel,
    g: Seq<(u64, Seq<(u32, Seq<(Seq<u8>, u64)>)>)>,
    p: int,
    q: int,
)
    requires
        grouped(s, g),
        0 <= p < g.len(),
        g[p].0 == m.cid.hash.code,
        0 <= q <= g[p].1.len(),
        forall|a: int| 0 <= a < q ==> (#[trigger] g[p].1[a]).0 < m.cid.hash.digest.len(),
        q < g[p].1.len() ==> g[p].1[q].0 > m.cid.hash.digest.len(),
        m.cid.hash.digest.len() <= u32::MAX,
    ensures
        grouped(
            s.push(m),
            g.update(
                p,
                (m.cid.hash.code, g[p].1.insert(q, (m.cid.hash.digest.len() as u32, seq![index_entry_of(m)]))),
            ),
        ),
{
    let code = m.cid.hash.code;
    let width = m.cid.hash.digest.len();
    let ws = g[p].1;
    let nw = (width as u32, seq![index_entry_of(m)]);
    let ws2 = ws.insert(q, nw);
    let g2 = g.update(p, (code, ws2));
    ws.insert_ensures(q, nw);
    assert(widths_grouped(s, code, ws));
    if has_bucket(g, code, width) {
        let (i, a) = choose|i: int, a: int|
            #![trigger g[i].1[a]]
            0 <= i < g.len() && 0 <= a < g[i].1.len() && g[i].0 == code && g[i].1[a].0 == width;
        assert(i == p) by {
            if i < p {
                assert(g[i].0 < g[p].0);
            } else if i > p {
                assert(g[p].0 < g[i].0);
            }
        }
        if a > q {
            assert(ws[q].0 < ws[a].0);
        }
    }
    lemma_bucket_empty(s, g, code, width);
    lemma_entries_push(s, m, code, width);
    assert forall|a: int, b: int| 0 <= a < b < ws2.len() implies (#[trigger] ws2[a]).0 < (#[trigger] ws2[b]).0 by {
        if b < q {
        } else if b == q {
            assert(ws2[a] == ws[a]);
        } else if a < q {
            assert(ws2[b] == ws[b - 1]);
            if q < ws.len() {
                assert(q == b - 1 || ws[q].0 < ws[b - 1].0);
            }
        } else if a == q {
            assert(ws2[b] == ws[b - 1]);
            assert(q == b - 1 || ws[q].0 < ws[b - 1].0);
        } else {
            assert(ws2[a] == ws[a - 1]);
            assert(ws2[b] == ws[b - 1]);
        }
    }
    assert forall|a: int| 0 <= a < ws2.len() implies (#[trigger] ws2[a]).1 == entries_of(
        s.push(m),
        code,
        ws2[a].0 as nat,
    ) && ws2[a].1.len() > 0 by {
        if a != q {
            let wa = if a < q { ws[a] } else { ws[a - 1] };
            assert(ws2[a] == wa);
            if a > q && q < ws.len() {
                assert(q == a - 1 || ws[q].0 < ws[a - 1].0);
            }
            lemma_entries_push(s, m, code, wa.0 as nat);
        }
    }
    assert(widths_grouped(s.push(m), code, ws2));
    assert forall|i: int, j: int| 0 <= i < j < g2.len() implies (#[trigger] g2[i]).0 < (#[trigger] g2[j]).0 by {
        assert(g2[i].0 == g[i].0);
        assert(g2[j].0 == g[j].0);
    }
    assert forall|i: int| 0 <= i < g2.len() implies widths_grouped(s.push(m), (#[trigger] g2[i]).0, g2[i].1) by {
        if i != p {
            assert(g2[i] == g[i]);
            if i < p {
                assert(g[i].0 < g[p].0);
            } else {
                assert(g[p].0 < g[i].0);
            }
            lemma_widths_kept(s, m, g[i].0, g[i].1);
        }
    }
    assert forall|k: int| 0 <= k < s.push(m).len() implies has_bucket(
        g2,
        (#[trigger] s.push(m)[k]).cid.hash.code,
        s.push(m)[k].cid.hash.digest.len(),
    ) by {
        if k < s.len() {
            let b = s[k];
            assert(s.push(m)[k] == b);
            assert(has_bucket(g, b.cid.hash.code, b.cid.hash.digest.len()));
            let (i, a) = choose|i: int, a: int|
                #![trigger g[i].1[a]]
                0 <= i < g.len() && 0 <= a < g[i].1.len() && g[i].0 == b.cid.hash.code && g[i].1[a].0
                    == b.cid.hash.digest.len();
            if i != p {
                assert(g2[i].1[a] == g[i].1[a]);
            } else if a < q {
                assert(g2[p].1[a] == ws[a]);
            } else {
                assert(g2[p].1[a + 1] == ws[a]);
            }
        } else {
            assert(g2[p].1[q].0 == width);
        }
    }
}

/// Adding block `m` whose hash function and digest width have a group, at
/// `p` and `q`: its entry goes last in that group.
proof fn lemma_group_existing(
    s: Seq<BlockMetadataModel>,
    m: BlockMetadataModel,
    g: Seq<(u64, Seq<(u32, Seq<(Seq<u8>, u64)>)>)>,
    p: int,
    q: int,
)
    requires
        grouped(s, g),
        0 <= p < g.len(),
        g[p].0 == m.cid.hash.code,
        0 <= q < g[p].1.len(),
        g[p].1[q].0 == m.cid.hash.digest.len(),
    ensures
        grouped(
            s.push(m),
            g.update(p, (m.cid.hash.code, g[p].1.update(q, (g[p].1[q].0, g[p].1[q].1.push(index_entry_of(m)))))),
        ),
{
    let code = m.cid.hash.code;
    let width = m.cid.hash.digest.len();
    let ws = g[p].1;
    let ws2 = ws.update(q, (ws[q].0, ws[q].1.push(index_entry_of(m))));
    let g2 = g.update(p, (code, ws2));
    assert(widths_grouped(s, code, ws));
    lemma_entries_push(s, m, code, width);
    assert forall|a: int, b: int| 0 <= a < b < ws2.len() implies (#[trigger] ws2[a]).0 < (#[trigger] ws2[b]).0 by {
        assert(ws2[a].0 == ws[a].0);
        assert(ws2[b].0 == ws[b].0);
    }
    assert forall|a: int| 0 <= a < ws2.len() implies (#[trigger] ws2[a]).1 == entries_of(
        s.push(m),
        code,
        ws2[a].0 as nat,
    ) && ws2[a].1.len() > 0 by {
        if a != q {
            assert(ws2[a] == ws[a]);
            if a < q {
                assert(ws[a].0 < ws[q].0);
            } else {
                assert(ws[q].0 < ws[a].0);
            }
            lemma_entries_push(s, m, code, ws[a].0 as nat);
        }
    }
    assert(widths_grouped(s.push(m), code, ws2));
    assert forall|i: int, j: int| 0 <= i < j < g2.len() implies (#[trigger] g2[i]).0 < (#[trigger] g2[j]).0 by {
        assert(g2[i].0 == g[i].0);
        assert(g2[j].0 == g[j].0);
    }
    assert forall|i: int| 0 <= i < g2.len() implies widths_grouped(s.push(m), (#[trigger] g2[i]).0, g2[i].1) by {
        if i != p {
            assert(g2[i] == g[i]);
            if i < p {
                assert(g[i].0 < g[p].0);
            } else {
                assert(g[p].0 < g[i].0);
            }
            lemma_widths_kept(s, m, g[i].0, g[i].1);
        }
    }
    assert forall|k: int| 0 <= k < s.push(m).len() implies has_bucket(
        g2,
        (#[trigger] s.push(m)[k]).cid.hash.code,
        s.push(m)[k].cid.hash.digest.len(),
    ) by {
        if k < s.len() {
            let b = s[k];
            assert(s.push(m)[k] == b);
            assert(has_bucket(g, b.cid.hash.code, b.cid.hash.digest.len()));
            let (i, a) = choose|i: int, a: int|
                #![trigger g[i].1[a]]
                0 <= i < g.len() && 0 <= a < g[i].1.len() && g[i].0 == b.cid.hash.code && g[i].1[a].0
                    == b.cid.hash.digest.len();
            if i != p {
                assert(g2[i].1[a] == g[i].1[a]);
            } else {
                assert(g2[p].1[a].0 == ws[a].0);
            }
        } else {
            assert(g2[p].1[q].0 == width);
        }
    }
}

/// The entries of one digest width in a multihash index.
pub struct WidthIndex {
    pub width: u32,
    pub entries: Vec<IndexEntry>,
}

/// The entries of one hash function in a multihash index, by digest width.
pub struct CodeIndex {
    pub code: u64,
    pub widths: Vec<WidthIndex>,
}

/// Index entries as values.
pub open spec fn entry_models(v: Seq<IndexEntry>) -> Seq<(Seq<u8>, u64)> {
    v.map_values(|e: IndexEntry| (e.digest@, e.offset))
}

/// Width groups as values.
pub open spec fn width_models(v: Seq<WidthIndex>) -> Seq<(u32, Seq<(Seq<u8>, u64)>)> {
    v.map_values(|w: WidthIndex| (w.width, entry_models(w.entries@)))
}

/// A multihash index as values.
pub open spec fn code_models(v: Seq<CodeIndex>) -> Seq<(u64, Seq<(u32, Seq<(Seq<u8>, u64)>)>)> {
    v.map_values(|c: CodeIndex| (c.code, width_models(c.widths@)))
}

fn code_position(groups: &Vec<CodeIndex>, code: u64) -> (p: usize)
    ensures
        p <= groups@.len(),
        forall|j: int| 0 <= j < p ==> (#[trigger] groups@[j]).code < code,
        p < groups@.len() ==> groups@[p as int].code >= code,
{
    let mut p: usize = 0;
    while p < groups.len()
        invariant
            p <= groups@.len(),
            forall|j: int| 0 <= j < p ==> (#[trigger] groups@[j]).code < code,
        decreases groups.len() - p,
    {
        if groups[p].code >= code {
            return p;
        }
        p += 1;
    }
    p
}

fn width_position(widths: &Vec<WidthIndex>, width: u32) -> (q: usize)
    ensures
        q <= widths@.len(),
        forall|j: int| 0 <= j < q ==> (#[trigger] widths@[j]).width < width,
        q < widths@.len() ==> widths@[q as int].width >= width,
{
    let mut q: usize = 0;
    while q < widths.len()
        invariant
            q <= widths@.len(),
            forall|j: int| 0 <= j < q ==> (#[trigger] widths@[j]).width < width,
        decreases widths.len() - q,
    {
        if widths[q].width >= width {
            return q;
        }
        q += 1;
    }
    q
}

/// Groups the index entries of `blocks` by hash function and digest width,
/// both in increasing order, the entries of a group in the order of the
/// blocks.
pub fn group_index(blocks: &Vec<BlockMetadata>) -> (r: Vec<CodeIndex>)
    requires
        forall|k: int|
            0 <= k < blocks@.len() ==> (#[trigger] blocks@[k]).block_offset >= V2_HEADER_SIZE
                && blocks@[k].cid.hash.digest@.len() <= u32::MAX,
    ensures
        grouped(blocks@.map_values(|m: BlockMetadata| m@), code_models(r@)),
{
    let ghost bm = blocks@.map_values(|m: BlockMetadata| m@);
    let mut groups: Vec<CodeIndex> = Vec::new();
    let mut i: usize = 0;
    proof {
        assert(bm.take(0) =~= Seq::<BlockMetadataModel>::empty());
        assert(code_models(groups@) =~= Seq::<(u64, Seq<(u32, Seq<(Seq<u8>, u64)>)>)>::empty());
    }
    while i < blocks.len()
        invariant
            i <= blocks@.len(),
            bm == blocks@.map_values(|m: BlockMetadata| m@),
            forall|k: int|
                0 <= k < blocks@.len() ==> (#[trigger] blocks@[k]).block_offset >= V2_HEADER_SIZE
                    && blocks@[k].cid.hash.digest@.len() <= u32::MAX,
            grouped(bm.take(i as int), code_models(groups@)),
        decreases blocks.len() - i,
    {
        let ghost s = bm.take(i as int);
        let ghost m = bm[i as int];
        let ghost g = code_models(groups@);
        proof {
            assert(bm.take(i + 1) =~= s.push(m));
            assert(m == blocks@[i as int]@);
        }
        let code = blocks[i].cid.hash.code;
        let width = blocks[i].cid.hash.digest.len() as u32;
        let digest = copy_range(blocks[i].cid.hash.digest.as_slice(), 0, blocks[i].cid.hash.digest.len());
        proof {
            assert(blocks@[i as int].cid.hash.digest@.subrange(0, blocks@[i as int].cid.hash.digest@.len() as int)
                =~= blocks@[i as int].cid.hash.digest@);
        }
        let entry = IndexEntry { digest, offset: blocks[i].block_offset - V2_HEADER_SIZE };
        let p = code_position(&groups, code);
        if p < groups.len() && groups[p].code == code {
            let ghost old_groups = groups@;
            let mut grp = groups.remove(p);
            let ghost ws = width_models(grp.widths@);
            let q = width_position(&grp.widths, width);
            if q < grp.widths.len() && grp.widths[q].width == width {
                let ghost old_widths = grp.widths@;
                let mut wg = grp.widths.remove(q);
                let ghost old_entries = wg.entries@;
                wg.entries.push(entry);
                grp.widths.insert(q, wg);
                proof {
                    lemma_group_existing(s, m, g, p as int, q as int);
                    assert(grp.widths@ =~= old_widths.update(q as int, grp.widths@[q as int]));
                    assert(entry_models(grp.widths@[q as int].entries@) =~= entry_models(old_entries).push(
                        index_entry_of(m),
                    ));
                    assert(width_models(grp.widths@) =~= ws.update(q as int, (ws[q as int].0, ws[q as int].1.push(index_entry_of(m)))));
                }
            } else {
                let mut es: Vec<IndexEntry> = Vec::new();
                es.push(entry);
                let ghost old_widths = grp.widths@;
                grp.widths.insert(q, WidthIndex { width, entries: es });
                proof {
                    assert forall|a: int| 0 <= a < q implies (#[trigger] g[p as int].1[a]).0 < m.cid.hash.digest.len() by {
                        assert(g[p as int].1[a] == ws[a]);
                    }
                    lemma_group_new_width(s, m, g, p as int, q as int);
                    assert(entry_models(es@) =~= seq![index_entry_of(m)]);
                    assert(width_models(grp.widths@) =~= ws.insert(q as int, (width, seq![index_entry_of(m)])));
                }
            }
            groups.insert(p, grp);
            proof {
                assert(groups@ =~= old_groups.update(p as int, grp));
                assert(code_models(groups@) =~= g.update(p as int, (code, width_models(grp.widths@))));
            }
        } else {
            let mut es: Vec<IndexEntry> = Vec::new();
            es.push(entry);
            let mut ws: Vec<WidthIndex> = Vec::new();
            ws.push(WidthIndex { width, entries: es });
            let ghost old_groups = groups@;
            groups.insert(p, CodeIndex { code, widths: ws });
            proof {
                assert forall|j: int| 0 <= j < p implies (#[trigger] g[j]).0 < m.cid.hash.code by {
                    assert(g[j].0 == old_groups[j].code);
                }
                lemma_group_new_code(s, m, g, p as int);
                assert(entry_models(es@) =~= seq![index_entry_of(m)]);
                assert(width_models(ws@) =~= seq![(width, seq![index_entry_of(m)])]);
                assert(code_models(groups@) =~= g.insert(p as int, (code, seq![(width, seq![index_entry_of(m)])])));
            }
        }
        i += 1;
    }
    proof {
        assert(bm.take(blocks@.len() as int) =~= bm);
    }
    groups
}

fn copy_cids(v: &Vec<Cid>) -> (out: Vec<Cid>)
    ensures
        out@.map_values(|c: Cid| c@) == v@.map_values(|c: Cid| c@),
{
    let mut out: Vec<Cid> = Vec::new();
    let mut i: usize = 0;
    while i < v.len()
        invariant
            i <= v.len(),
            out@.map_values(|c: Cid| c@) == v@.map_values(|c: Cid| c@).take(i as int),
        decreases v.len() - i,
    {
        let ghost prev = out@;
        out.push(v[i].copy());
        proof {
            assert(out@.map_values(|c: Cid| c@) =~= prev.map_values(|c: Cid| c@).push(v@[i as int]@));
            assert(v@.map_values(|c: Cid| c@).take(i + 1) =~= v@.map_values(|c: Cid| c@).take(i as int).push(
                v@[i as int]@,
            ));
        }
        i += 1;
    }
    proof {
        assert(v@.map_values(|c: Cid| c@).take(v.len() as int) =~= v@.map_values(|c: Cid| c@));
    }
    out
}

impl FileWriter {
    /// Whether the file can be finished with `n` roots: the CARv1 header
    /// naming them, written in place of the placeholder, and the offsets
    /// that follow it fit.
    pub open spec fn fits(&self, n: nat) -> bool {
        &&& 17 + 41 * n + 10 <= usize::MAX
        &&& self.position_view() - header_encoded_len(1) + header_encoded_len(n) <= u64::MAX
    }

    /// Whether the file can be finished with `n` roots.
    pub fn can_finish(&self, n: usize) -> (b: bool)
        requires
            self.wf(),
        ensures
            b == self.fits(n as nat),
    {
        let body = match n.checked_mul(41) {
            None => {
                return false;
            },
            Some(x) => match x.checked_add(27) {
                None => {
                    return false;
                },
                Some(_) => x + 17,
            },
        };
        proof {
            lemma_u64_varint_len(body as u64);
            lemma_u64_varint_len(58);
        }
        let header_len = required_space(body as u64) as u64 + body as u64;
        header_len <= u64::MAX - (self.position - 59)
    }

    /// The headers and index of the finished file: the CARv1 header naming
    /// the roots of the files written, the CARv2 header (not fully indexed,
    /// the CARv1 payload after it and the index after the payload), and the
    /// index of the blocks grouped by hash function and digest width.
    pub fn finish(&self) -> (r: (V2Header, Header, Vec<CodeIndex>))
        requires
            self.wf(),
            self.fits(self.roots_view().len()),
        ensures
            r.0 == (V2Header {
                characteristics: Characteristics { fully_indexed: false },
                data_offset: V2_HEADER_SIZE,
                data_size: (self.position_view() - V2_HEADER_SIZE - header_encoded_len(1) + header_encoded_len(
                    self.roots_view().len(),
                )) as u64,
                index_offset: (self.position_view() - header_encoded_len(1) + header_encoded_len(
                    self.roots_view().len(),
                )) as u64,
            }),
            r.1.version == 1,
            r.1.roots@.map_values(|c: Cid| c@) == self.roots_view(),
            grouped(self.blocks_view(), code_models(r.2@)),
    {
        let roots = copy_cids(&self.roots);
        let v1 = Header::new(roots);
        let v2 = header_v2(&v1, &self.blocks);
        let index = group_index(&self.blocks);
        (v2, v1, index)
    }

    /// Replaces the roots with `roots`, then finishes the file as
    /// [`FileWriter::finish`] does.
    pub fn finish_with_roots(&mut self, roots: Vec<Cid>) -> (r: (V2Header, Header, Vec<CodeIndex>))
        requires
            old(self).wf(),
            old(self).fits(roots@.len()),
        ensures
            final(self).wf(),
            final(self).position_view() == old(self).position_view(),
            final(self).blocks_view() == old(self).blocks_view(),
            final(self).roots_view() == roots@.map_values(|c: Cid| c@),
            r.0 == (V2Header {
                characteristics: Characteristics { fully_indexed: false },
                data_offset: V2_HEADER_SIZE,
                data_size: (old(self).position_view() - V2_HEADER_SIZE - header_encoded_len(1) + header_encoded_len(
                    roots@.len(),
                )) as u64,
                index_offset: (old(self).position_view() - header_encoded_len(1) + header_encoded_len(roots@.len()))
                    as u64,
            }),
            r.1.version == 1,
            r.1.roots@.map_values(|c: Cid| c@) == roots@.map_values(|c: Cid| c@),
            grouped(old(self).blocks_view(), code_models(r.2@)),
    {
        self.roots = roots;
        self.finish()
    }
}

} // verus!
