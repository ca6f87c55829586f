//! A blockstore kept in a CARv2 file: blocks are appended to the CARv1
//! payload as they are put, an index from digest to offset is kept in
//! memory, and the headers and index are written when the store is
//! finalized. This module holds the store's bookkeeping; the caller does
//! the reads and writes it asks for.

use vstd::prelude::*;
use crate::car::{block_bytes, lemma_block_roundtrip, spec_read_block, write_block, Error, Header, IndexEntry, V2Header, V2_HEADER_SIZE, Characteristics};
use crate::cid::{bytes_eq, copy_range, Cid, CidModel, CidExt, cid_bytes, cid_wf, IDENTITY_CODE};
use crate::walk::{read_data, read_data_at};

verus! {

/// The position of the first entry with key `k` among the first `n`
/// entries of `idx`.
pub open spec fn key_position(idx: Seq<(Seq<u8>, u64)>, k: Seq<u8>, n: nat) -> Option<int>
    decreases n,
{
    if n == 0 {
        None
    } else {
        match key_position(idx, k, (n - 1) as nat) {
            Some(i) => Some(i),
            None => if idx[n - 1].0 == k {
                Some(n - 1)
            } else {
                None
            },
        }
    }
}

/// The offset recorded for digest `k`, if any.
pub open spec fn lookup(idx: Seq<(Seq<u8>, u64)>, k: Seq<u8>) -> Option<u64> {
    match key_position(idx, k, idx.len()) {
        Some(i) => Some(idx[i].1),
        None => None,
    }
}

/// The index after recording offset `v` for digest `k`: an existing entry
/// keeps its place and takes the new offset; a new one goes last.
pub open spec fn index_insert(idx: Seq<(Seq<u8>, u64)>, k: Seq<u8>, v: u64) -> Seq<(Seq<u8>, u64)> {
    match key_position(idx, k, idx.len()) {
        Some(i) => idx.update(i, (k, v)),
        None => idx.push((k, v)),
    }
}

/// The index after inserting the first `n` entries of `entries` in order.
pub open spec fn index_from_entries(entries: Seq<(Seq<u8>, u64)>, n: nat) -> Seq<(Seq<u8>, u64)>
    decreases n,
{
    if n == 0 {
        Seq::empty()
    } else {
        index_insert(index_from_entries(entries, (n - 1) as nat), entries[n - 1].0, entries[n - 1].1)
    }
}

proof fn lemma_key_position_bounds(idx: Seq<(Seq<u8>, u64)>, k: Seq<u8>, n: nat)
    requires
        n <= idx.len(),
    ensures
        key_position(idx, k, n) matches Some(i) ==> 0 <= i < n && idx[i].0 == k,
        key_position(idx, k, n) is None ==> forall|j: int| 0 <= j < n ==> idx[j].0 != k,
    decreases n,
{
    if n > 0 {
        lemma_key_position_bounds(idx, k, (n - 1) as nat);
    }
}

proof fn lemma_key_position_same_keys(s: Seq<(Seq<u8>, u64)>, t: Seq<(Seq<u8>, u64)>, k: Seq<u8>, n: nat)
    requires
        n <= s.len(),
        n <= t.len(),
        forall|j: int| 0 <= j < n ==> ((#[trigger] s[j]).0 == k) == (t[j].0 == k),
    ensures
        key_position(s, k, n) == key_position(t, k, n),
    decreases n,
{
    if n > 0 {
        lemma_key_position_same_keys(s, t, k, (n - 1) as nat);
        assert((s[n - 1].0 == k) == (t[n - 1].0 == k));
    }
}

/// The index after the puts `later`, made in order, on `idx`.
pub open spec fn index_insert_all(idx: Seq<(Seq<u8>, u64)>, later: Seq<(Seq<u8>, u64)>) -> Seq<(Seq<u8>, u64)>
    decreases later.len(),
{
    if later.len() == 0 {
        idx
    } else {
        index_insert(index_insert_all(idx, later.drop_last()), later.last().0, later.last().1)
    }
}

/// Looking up a digest just recorded gives the offset recorded with it;
/// looking up another digest gives what it gave before.
pub proof fn law_index_insert_lookup(idx: Seq<(Seq<u8>, u64)>, k: Seq<u8>, v: u64, other: Seq<u8>)
    ensures
        lookup(index_insert(idx, k, v), k) == Some(v),
        other != k ==> lookup(index_insert(idx, k, v), other) == lookup(idx, other),
{
    let n = idx.len();
    lemma_key_position_bounds(idx, k, n);
    lemma_key_position_bounds(idx, other, n);
    let after = index_insert(idx, k, v);
    match key_position(idx, k, n) {
        Some(i) => {
            assert(after == idx.update(i, (k, v)));
            lemma_key_position_same_keys(after, idx, k, n);
            if other != k {
                lemma_key_position_same_keys(after, idx, other, n);
            }
        },
        None => {
            assert(after == idx.push((k, v)));
            lemma_key_position_same_keys(after, idx, k, n);
            assert(key_position(after, k, n + 1) == Some(n as int));
            if other != k {
                lemma_key_position_same_keys(after, idx, other, n);
                assert(key_position(after, other, n + 1) == key_position(after, other, n));
                lemma_key_position_bounds(after, other, n);
            }
        },
    }
}

proof fn lemma_lookup_kept(idx: Seq<(Seq<u8>, u64)>, later: Seq<(Seq<u8>, u64)>, k: Seq<u8>)
    requires
        forall|i: int| 0 <= i < later.len() ==> (#[trigger] later[i]).0 != k,
    ensures
        lookup(index_insert_all(idx, later), k) == lookup(idx, k),
    decreases later.len(),
{
    if later.len() > 0 {
        let shorter = later.drop_last();
        assert forall|i: int| 0 <= i < shorter.len() implies (#[trigger] shorter[i]).0 != k by {
            assert(shorter[i] == later[i]);
        }
        lemma_lookup_kept(idx, shorter, k);
        assert(later.last() == later[later.len() - 1]);
        law_index_insert_lookup(index_insert_all(idx, shorter), later.last().0, later.last().1, k);
    }
}

/// A block put into the store can be read back. The store indexes its
/// digest at the payload's length before the put, and its frame is
/// appended to a file holding the CARv2 header and that payload; after
/// that, whatever is appended to the file and whatever blocks of other
/// digests are put, the index still names that offset for the digest, and
/// the block read in the file at the offset past the CARv2 header, as
/// `get` asks, is the block that was put, so the data `get_block` reads there
/// is the data put.
pub proof fn law_put_then_get(
    idx: Seq<(Seq<u8>, u64)>,
    data_size: u64,
    file: Seq<u8>,
    cid: CidModel,
    data: Seq<u8>,
    later: Seq<(Seq<u8>, u64)>,
    more: Seq<u8>,
)
    requires
        file.len() == V2_HEADER_SIZE + data_size,
        V2_HEADER_SIZE + data_size <= u64::MAX,
        cid_wf(cid),
        cid_bytes(cid).len() + data.len() <= u64::MAX,
        forall|i: int| 0 <= i < later.len() ==> (#[trigger] later[i]).0 != cid.hash.digest,
    ensures
        lookup(index_insert_all(index_insert(idx, cid.hash.digest, data_size), later), cid.hash.digest)
            == Some(data_size),
        spec_read_block((file + block_bytes(cid, data) + more).skip(V2_HEADER_SIZE + data_size)) == Ok::<
            (CidModel, Seq<u8>, nat),
            Error,
        >((cid, data, block_bytes(cid, data).len())),
        read_data(file + block_bytes(cid, data) + more, (V2_HEADER_SIZE + data_size) as u64) == Ok::<
            Seq<u8>,
            Error,
        >(data),
{
    law_index_insert_lookup(idx, cid.hash.digest, data_size, cid.hash.digest);
    lemma_lookup_kept(index_insert(idx, cid.hash.digest, data_size), later, cid.hash.digest);
    let whole = file + block_bytes(cid, data) + more;
    assert(whole.skip(V2_HEADER_SIZE + data_size) =~= block_bytes(cid, data) + more);
    lemma_block_roundtrip(cid, data, more);
}

/// The default size of a chunk of file data: 256 KiB.
pub const DEFAULT_CHUNK_SIZE: usize = 262144;

/// The default number of children of a tree node.
pub const DEFAULT_TREE_WIDTH: usize = 174;

/// How a file is laid out as a tree of blocks.
pub enum Config {
    /// A balanced tree of chunks of `chunk_size` bytes whose inner nodes
    /// link at most `tree_width` children; the leaves are raw blocks when
    /// `raw` holds, UnixFS nodes otherwise.
    Balanced { chunk_size: usize, tree_width: usize, raw: bool },
}

impl Config {
    /// A balanced tree layout.
    pub fn balanced(chunk_size: usize, tree_width: usize, raw: bool) -> (c: Config)
        ensures
            c == (Config::Balanced { chunk_size, tree_width, raw }),
    {
        Config::Balanced { chunk_size, tree_width, raw }
    }

    /// A balanced tree layout with UnixFS nodes.
    pub fn balanced_unixfs(chunk_size: usize, tree_width: usize) -> (c: Config)
        ensures
            c == (Config::Balanced { chunk_size, tree_width, raw: false }),
    {
        Config::balanced(chunk_size, tree_width, false)
    }

    /// A balanced tree layout with raw leaves.
    pub fn balanced_raw(chunk_size: usize, tree_width: usize) -> (c: Config)
        ensures
            c == (Config::Balanced { chunk_size, tree_width, raw: true }),
    {
        Config::balanced(chunk_size, tree_width, true)
    }
}

impl Default for Config {
    /// The balanced UnixFS layout with the default chunk size and width.
    fn default() -> (c: Config)
        ensures
            c == (Config::Balanced { chunk_size: DEFAULT_CHUNK_SIZE, tree_width: DEFAULT_TREE_WIDTH, raw: false }),
    {
        Config::Balanced { chunk_size: DEFAULT_CHUNK_SIZE, tree_width: DEFAULT_TREE_WIDTH, raw: false }
    }
}

/// What the store asks its caller to do to get a block.
pub enum GetAction {
    /// The block is the data inlined in its identity CID.
    Identity(Vec<u8>),
    /// The block is not in the store.
    NotFound,
    /// The block's frame starts at this offset of the file.
    ReadAt(u64),
}

/// The bookkeeping of a CARv2 blockstore: its roots, the length of its
/// CARv1 payload, and its index.
pub struct FileBlockstore {
    roots: Vec<Cid>,
    data_size: u64,
    index: Vec<IndexEntry>,
}

/// Index entries as values.
pub open spec fn entries_model(v: Seq<IndexEntry>) -> Seq<(Seq<u8>, u64)> {
    v.map_values(|e: IndexEntry| (e.digest@, e.offset))
}

fn find_digest(index: &Vec<IndexEntry>, digest: &[u8]) -> (r: Option<usize>)
    ensures
        r == match key_position(entries_model(index@), digest@, index@.len()) {
            Some(i) => Some(i as usize),
            None => None::<usize>,
        },
{
    let ghost idx = entries_model(index@);
    let mut i: usize = 0;
    while i < index.len()
        invariant
            i <= index.len(),
            idx == entries_model(index@),
            key_position(idx, digest@, i as nat) is None,
        decreases index.len() - i,
    {
        if bytes_eq(index[i].digest.as_slice(), digest) {
            proof {
                assert(key_position(idx, digest@, (i + 1) as nat) == Some(i as int));
                lemma_key_position_found(idx, digest@, (i + 1) as nat, idx.len());
            }
            return Some(i);
        }
        i += 1;
    }
    None
}

proof fn lemma_key_position_found(idx: Seq<(Seq<u8>, u64)>, k: Seq<u8>, m: nat, n: nat)
    requires
        m <= n,
        key_position(idx, k, m) is Some,
    ensures
        key_position(idx, k, n) == key_position(idx, k, m),
    decreases n - m,
{
    if m < n {
        lemma_key_position_found(idx, k, m, (n - 1) as nat);
    }
}

/// Records offset `offset` for `digest` in `index`.
fn insert_entry(index: &mut Vec<IndexEntry>, digest: &[u8], offset: u64)
    ensures
        entries_model(final(index)@) == index_insert(entries_model(old(index)@), digest@, offset),
        forall|j: int| 0 <= j < final(index)@.len() ==> (#[trigger] final(index)@[j]).offset == offset
            || (j < old(index)@.len() && final(index)@[j].offset == old(index)@[j].offset),
{
    let ghost idx = entries_model(index@);
    let d = copy_range(digest, 0, digest.len());
    proof {
        assert(digest@.subrange(0, digest@.len() as int) =~= digest@);
    }
    let n = index.len();
    let found = find_digest(index, digest);
    proof {
        lemma_key_position_bounds(idx, digest@, idx.len());
        assert(idx.len() == n);
    }
    match found {
        Some(i) => {
            index.set(i, IndexEntry { digest: d, offset });
            proof {
                assert(entries_model(index@) =~= idx.update(i as int, (digest@, offset)));
            }
        },
        None => {
            index.push(IndexEntry { digest: d, offset });
            proof {
                assert(entries_model(index@) =~= idx.push((digest@, offset)));
            }
        },
    }
}

impl FileBlockstore {
    /// The roots the store was created with.
    pub closed spec fn roots_view(&self) -> Seq<CidModel> {
        self.roots@.map_values(|c: Cid| c@)
    }

    /// The length of the CARv1 payload: its header and the block frames.
    pub closed spec fn data_size_view(&self) -> u64 {
        self.data_size
    }

    /// The index: digest and offset from the start of the payload.
    pub closed spec fn index_view(&self) -> Seq<(Seq<u8>, u64)> {
        entries_model(self.index@)
    }

    /// Every indexed offset, moved past the CARv2 header, is a 64-bit offset.
    pub closed spec fn offsets_fit(&self) -> bool {
        forall|i: int| 0 <= i < self.index@.len() ==> V2_HEADER_SIZE + (#[trigger] self.index@[i]).offset <= u64::MAX
    }

    /// A new store with `roots`, once the placeholder CARv2 header and a
    /// CARv1 header of `v1_header_len` bytes have been written; a store needs
    /// at least one root.
    pub fn new(roots: Vec<Cid>, v1_header_len: u64) -> (res: Result<FileBlockstore, Error>)
        ensures
            roots@.len() == 0 ==> res matches Err(Error::EmptyRootsError),
            roots@.len() > 0 ==> (res matches Ok(s) && s.roots_view() == roots@.map_values(|c: Cid| c@)
                && s.data_size_view() == v1_header_len && s.index_view() == Seq::<(Seq<u8>, u64)>::empty()
                && s.offsets_fit()),
    {
        if roots.len() == 0 {
            return Err(Error::EmptyRootsError);
        }
        let s = FileBlockstore { roots, data_size: v1_header_len, index: Vec::new() };
        proof {
            assert(s.index_view() =~= Seq::<(Seq<u8>, u64)>::empty());
        }
        Ok(s)
    }

    /// A read-only store over an existing archive with header `v2_header`,
    /// roots `roots` and the entries of its index; an archive without an
    /// index is refused.
    pub fn from_existing(v2_header: V2Header, roots: Vec<Cid>, entries: &Vec<IndexEntry>) -> (res: Result<
        FileBlockstore,
        Error,
    >)
        ensures
            v2_header.index_offset == 0 ==> res matches Err(Error::EmptyIndexError),
            v2_header.index_offset != 0 ==> (res matches Ok(s) && s.roots_view() == roots@.map_values(|c: Cid| c@)
                && s.data_size_view() == v2_header.data_size && s.index_view() == index_from_entries(
                entries_model(entries@),
                entries@.len(),
            ) && ((forall|i: int| 0 <= i < entries@.len() ==> V2_HEADER_SIZE + (#[trigger] entries@[i]).offset <= u64::MAX)
                ==> s.offsets_fit())),
    {
        if v2_header.index_offset == 0 {
            return Err(Error::EmptyIndexError);
        }
        let ghost es = entries_model(entries@);
        let mut index: Vec<IndexEntry> = Vec::new();
        let mut i: usize = 0;
        proof {
            assert(entries_model(index@) =~= Seq::<(Seq<u8>, u64)>::empty());
        }
        let ghost all_fit = forall|i: int| 0 <= i < entries@.len() ==> V2_HEADER_SIZE + (#[trigger] entries@[i]).offset <= u64::MAX;
        while i < entries.len()
            invariant
                i <= entries.len(),
                es == entries_model(entries@),
                entries_model(index@) == index_from_entries(es, i as nat),
                all_fit == (forall|i: int| 0 <= i < entries@.len() ==> V2_HEADER_SIZE + (#[trigger] entries@[i]).offset <= u64::MAX),
                all_fit ==> forall|j: int| 0 <= j < index@.len() ==> V2_HEADER_SIZE + (#[trigger] index@[j]).offset <= u64::MAX,
            decreases entries.len() - i,
        {
            let ghost before = index@;
            insert_entry(&mut index, entries[i].digest.as_slice(), entries[i].offset);
            proof {
                if all_fit {
                    assert(V2_HEADER_SIZE + entries@[i as int].offset <= u64::MAX);
                    assert forall|j: int| 0 <= j < index@.len() implies V2_HEADER_SIZE + (#[trigger] index@[j]).offset <= u64::MAX by {
                        if j < before.len() {
                            assert(V2_HEADER_SIZE + before[j].offset <= u64::MAX);
                        }
                    }
                }
            }
            i += 1;
        }
        Ok(FileBlockstore { roots, data_size: v2_header.data_size, index })
    }

    /// Whether the store holds a block with CID `cid`: always for an
    /// identity CID, otherwise when its digest is indexed.
    pub fn has(&self, cid: &Cid) -> (r: bool)
        ensures
            r == (cid.hash.code == IDENTITY_CODE || lookup(self.index_view(), cid.hash.digest@) is Some),
    {
        if cid.get_identity_data().is_some() {
            return true;
        }
        find_digest(&self.index, cid.hash.digest.as_slice()).is_some()
    }

    /// How to get the block with CID `cid`: the data of an identity CID, or
    /// the file offset of its frame (past the CARv2 header), or not found.
    pub fn get(&self, cid: &Cid) -> (r: GetAction)
        requires
            self.offsets_fit(),
        ensures
            cid.hash.code == IDENTITY_CODE ==> (r matches GetAction::Identity(d) && d@ == cid.hash.digest@),
            cid.hash.code != IDENTITY_CODE ==> match lookup(self.index_view(), cid.hash.digest@) {
                None => r is NotFound,
                Some(off) => r == GetAction::ReadAt((V2_HEADER_SIZE + off) as u64),
            },
    {
        let identity = cid.get_identity_data();
        proof {
            assert(cid.hash.code == IDENTITY_CODE ==> (identity matches Some(x) && x@ == cid.hash.digest@));
            assert(cid.hash.code != IDENTITY_CODE ==> identity is None);
        }
        if let Some(data) = identity {
            let d = copy_range(data, 0, data.len());
            proof {
                assert(data@.subrange(0, data@.len() as int) =~= data@);
            }
            return GetAction::Identity(d);
        }
        let n = self.index.len();
        match find_digest(&self.index, cid.hash.digest.as_slice()) {
            None => GetAction::NotFound,
            Some(i) => {
                proof {
                    assert(self.index_view().len() == n);
                    lemma_key_position_bounds(self.index_view(), cid.hash.digest@, self.index_view().len());
                    assert(self.index_view()[i as int].1 == self.index@[i as int].offset);
                    assert(V2_HEADER_SIZE + self.index@[i as int].offset <= u64::MAX);
                }
                GetAction::ReadAt(V2_HEADER_SIZE + self.index[i].offset)
            },
        }
    }

    /// The block with CID `cid`, read from `file`, the bytes of the store's
    /// file: the data of an identity CID, nothing for a block not in the
    /// store, or the data of the block framed at its offset, or why that
    /// frame cannot be read.
    pub fn get_block(&self, cid: &Cid, file: &[u8]) -> (r: Result<Option<Vec<u8>>, Error>)
        requires
            self.offsets_fit(),
        ensures
            cid.hash.code == IDENTITY_CODE ==> (r matches Ok(Some(d)) && d@ == cid.hash.digest@),
            cid.hash.code != IDENTITY_CODE ==> match lookup(self.index_view(), cid.hash.digest@) {
                None => r matches Ok(None),
                Some(off) => match read_data(file@, (V2_HEADER_SIZE + off) as u64) {
                    Ok(d) => r matches Ok(Some(x)) && x@ == d,
                    Err(e) => r == Err::<Option<Vec<u8>>, Error>(e),
                },
            },
    {
        match self.get(cid) {
            GetAction::Identity(d) => Ok(Some(d)),
            GetAction::NotFound => Ok(None),
            GetAction::ReadAt(offset) => match read_data_at(file, offset) {
                Ok(d) => Ok(Some(d)),
                Err(e) => Err(e),
            },
        }
    }

    /// Puts a block: nothing is written for an identity CID; otherwise the
    /// returned frame is to be appended to the payload, and the block's
    /// digest is indexed at the payload's former length.
    pub fn put_keyed(&mut self, cid: &Cid, data: &[u8]) -> (r: Option<Vec<u8>>)
        requires
            cid_bytes(cid@).len() + data@.len() <= usize::MAX,
            V2_HEADER_SIZE + old(self).data_size_view() + block_bytes(cid@, data@).len() <= u64::MAX,
        ensures
            cid.hash.code == IDENTITY_CODE ==> (r is None && final(self).index_view() == old(self).index_view()
                && final(self).data_size_view() == old(self).data_size_view()),
            cid.hash.code != IDENTITY_CODE ==> {
                &&& r matches Some(frame) && frame@ == block_bytes(cid@, data@)
                &&& final(self).data_size_view() == old(self).data_size_view() + block_bytes(cid@, data@).len()
                &&& final(self).index_view() == index_insert(
                    old(self).index_view(),
                    cid.hash.digest@,
                    old(self).data_size_view(),
                )
            },
            final(self).roots_view() == old(self).roots_view(),
            old(self).offsets_fit() ==> final(self).offsets_fit(),
    {
        if cid.get_identity_data().is_some() {
            return None;
        }
        let mut frame: Vec<u8> = Vec::new();
        let written = write_block(&mut frame, cid, data);
        proof {
            assert(frame@ =~= block_bytes(cid@, data@));
        }
        let offset = self.data_size;
        let ghost before = self.index@;
        insert_entry(&mut self.index, cid.hash.digest.as_slice(), offset);
        proof {
            if old(self).offsets_fit() {
                assert forall|j: int| 0 <= j < self.index@.len() implies V2_HEADER_SIZE + (#[trigger] self.index@[j]).offset <= u64::MAX by {
                    if j < before.len() {
                        assert(V2_HEADER_SIZE + before[j].offset <= u64::MAX);
                    }
                }
            }
        }
        self.data_size = self.data_size + written as u64;
        Some(frame)
    }

    /// Finalizes the store. The CARv2 header (no characteristics, the
    /// payload after the header and the index after the payload) is written
    /// first in any case; then, when `new_roots` are given, they must be as
    /// many as the roots the store was created with, and a CARv1 header with
    /// them is written; last, the index entries in the order their digests
    /// were first put.
    pub fn finalize(&self, new_roots: Option<Vec<Cid>>) -> (r: (V2Header, Result<(Option<Header>, Vec<IndexEntry>), Error>))
        requires
            V2_HEADER_SIZE + self.data_size_view() <= u64::MAX,
        ensures
            r.0 == (V2Header {
                characteristics: Characteristics { fully_indexed: false },
                data_offset: V2_HEADER_SIZE,
                data_size: self.data_size_view(),
                index_offset: (V2_HEADER_SIZE + self.data_size_view()) as u64,
            }),
            match new_roots {
                Some(nr) => if nr@.len() != self.roots_view().len() {
                    r.1 matches Err(Error::WrongNumberOfRoots)
                } else {
                    r.1 matches Ok((h, es)) && h matches Some(hh) && hh.version == 1 && hh.roots@ == nr@
                        && entries_model(es@) == self.index_view()
                },
                None => r.1 matches Ok((h, es)) && h is None && entries_model(es@) == self.index_view(),
            },
    {
        let header = V2Header::new(false, V2_HEADER_SIZE, self.data_size, V2_HEADER_SIZE + self.data_size);
        let v1 = match new_roots {
            Some(nr) => {
                if nr.len() != self.roots.len() {
                    return (header, Err(Error::WrongNumberOfRoots));
                }
                Some(Header::new(nr))
            },
            None => None,
        };
        let mut entries: Vec<IndexEntry> = Vec::new();
        let mut i: usize = 0;
        while i < self.index.len()
            invariant
                i <= self.index.len(),
                entries_model(entries@) == self.index_view().take(i as int),
            decreases self.index.len() - i,
        {
            let d = copy_range(self.index[i].digest.as_slice(), 0, self.index[i].digest.len());
            proof {
                assert(self.index@[i as int].digest@.subrange(0, self.index@[i as int].digest@.len() as int)
                    =~= self.index@[i as int].digest@);
            }
            let ghost prev = entries_model(entries@);
            entries.push(IndexEntry { digest: d, offset: self.index[i].offset });
            proof {
                assert(entries_model(entries@) =~= prev.push((self.index@[i as int].digest@, self.index@[i as int].offset)));
                assert(self.index_view().take(i + 1) =~= self.index_view().take(i as int).push(self.index_view()[i as int]));
            }
            i += 1;
        }
        proof {
            assert(self.index_view().take(self.index_view().len() as int) =~= self.index_view());
        }
        (header, Ok((v1, entries)))
    }
}

} // verus!
