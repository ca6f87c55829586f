//! Combining piece commitments: two pieces of equal size join into one
//! whose commitment is the SHA2-256 hash of theirs, and a stack of pieces
//! is kept reduced by joining its top pieces while their sizes agree.

use vstd::prelude::*;
use crate::hashing::{sha256, sha256_spec};
use crate::cid::append_bytes;

verus! {

/// Errors of the commitment computations.
#[derive(PartialEq, Eq, Structural, Clone, Copy, Debug)]
pub enum CommDError {
    /// The pieces do not fit in the sector.
    PieceSizeTooLarge,
    /// Two pieces of different sizes cannot be joined.
    InvalidPieceSize,
}

/// A piece: its 32-byte commitment and its padded size.
pub struct PieceInfo {
    pub commitment: Vec<u8>,
    pub size: u64,
}

/// A piece as values.
pub open spec fn piece_model(p: PieceInfo) -> (Seq<u8>, u64) {
    (p.commitment@, p.size)
}

/// The hash of two 32-byte commitments laid side by side.
pub open spec fn spec_piece_hash(a: Seq<u8>, b: Seq<u8>) -> Seq<u8> {
    sha256_spec(a + b)
}

/// Hashes the 64 bytes made of `a` then `b`, each 32 bytes long.
pub fn piece_hash(a: &[u8], b: &[u8]) -> (h: Vec<u8>)
    requires
        a@.len() == 32,
        b@.len() == 32,
    ensures
        h@ == spec_piece_hash(a@, b@),
        h@.len() == 32,
{
    let mut buf: Vec<u8> = Vec::new();
    append_bytes(&mut buf, a);
    append_bytes(&mut buf, b);
    proof {
        assert(Seq::<u8>::empty() + a@ + b@ =~= a@ + b@);
    }
    sha256(buf.as_slice())
}

/// The join of two pieces of equal size: the hash of their commitments and
/// the sum of their sizes.
pub open spec fn spec_join(l: (Seq<u8>, u64), r: (Seq<u8>, u64)) -> (Seq<u8>, u64) {
    (spec_piece_hash(l.0, r.0), (l.1 + r.1) as u64)
}

/// Joins two pieces of equal size; pieces of different sizes are refused.
pub fn join_piece_infos(left: PieceInfo, right: PieceInfo) -> (res: Result<PieceInfo, CommDError>)
    requires
        left.commitment@.len() == 32,
        right.commitment@.len() == 32,
        left.size + right.size <= u64::MAX,
    ensures
        left.size != right.size ==> res == Err::<PieceInfo, CommDError>(CommDError::InvalidPieceSize),
        left.size == right.size ==> (res matches Ok(p) && piece_model(p) == spec_join(piece_model(left), piece_model(right))
            && p.commitment@.len() == 32),
{
    if left.size != right.size {
        return Err(CommDError::InvalidPieceSize);
    }
    let hash = piece_hash(left.commitment.as_slice(), right.commitment.as_slice());
    Ok(PieceInfo { commitment: hash, size: left.size + right.size })
}

/// Sum of the sizes of the first `n` pieces.
pub open spec fn total_size(ps: Seq<(Seq<u8>, u64)>, n: nat) -> nat
    decreases n,
{
    if n == 0 {
        0
    } else {
        total_size(ps, (n - 1) as nat) + ps[n - 1].1 as nat
    }
}

/// Checks that the pieces fit in a sector of `sector_size` bytes.
pub fn ensure_piece_sizes(sector_size: u64, piece_infos: &Vec<PieceInfo>) -> (res: Result<(), CommDError>)
    requires
        total_size(piece_infos@.map_values(|p: PieceInfo| piece_model(p)), piece_infos@.len()) <= u64::MAX,
    ensures
        res is Ok <==> total_size(piece_infos@.map_values(|p: PieceInfo| piece_model(p)), piece_infos@.len())
            <= sector_size,
        res is Err ==> res == Err::<(), CommDError>(CommDError::PieceSizeTooLarge),
{
    let ghost ps = piece_infos@.map_values(|p: PieceInfo| piece_model(p));
    let mut sum: u64 = 0;
    let mut i: usize = 0;
    while i < piece_infos.len()
        invariant
            i <= piece_infos.len(),
            ps == piece_infos@.map_values(|p: PieceInfo| piece_model(p)),
            total_size(ps, ps.len()) <= u64::MAX,
            sum == total_size(ps, i as nat),
        decreases piece_infos.len() - i,
    {
        proof {
            lemma_total_monotone(ps, (i + 1) as nat, ps.len());
        }
        sum = sum + piece_infos[i].size;
        i += 1;
    }
    if sum > sector_size {
        return Err(CommDError::PieceSizeTooLarge);
    }
    Ok(())
}

proof fn lemma_total_monotone(ps: Seq<(Seq<u8>, u64)>, k: nat, n: nat)
    requires
        k <= n,
    ensures
        total_size(ps, k) <= total_size(ps, n),
    decreases n - k,
{
    if k < n {
        lemma_total_monotone(ps, k, (n - 1) as nat);
    }
}

/// The stack after one reduction step: when its two top pieces have the
/// same size they are replaced by their join.
pub open spec fn reduce1_spec(s: Seq<(Seq<u8>, u64)>) -> Option<Seq<(Seq<u8>, u64)>> {
    if s.len() < 2 {
        None
    } else if s[s.len() - 1].1 == s[s.len() - 2].1 {
        Some(s.take(s.len() - 2).push(spec_join(s[s.len() - 2], s[s.len() - 1])))
    } else {
        None
    }
}

/// The stack reduced as far as it goes.
pub open spec fn reduce_spec(s: Seq<(Seq<u8>, u64)>) -> Seq<(Seq<u8>, u64)>
    decreases s.len(),
{
    match reduce1_spec(s) {
        Some(t) => reduce_spec(t),
        None => s,
    }
}

/// A stack of pieces, kept reduced: no two adjacent top pieces share a size.
pub struct Stack(Vec<PieceInfo>);

impl Stack {
    /// The pieces, bottom first.
    pub closed spec fn view_pieces(&self) -> Seq<(Seq<u8>, u64)> {
        self.0@.map_values(|p: PieceInfo| piece_model(p))
    }

    /// Every commitment has 32 bytes and the sizes sum to a 64-bit value.
    pub closed spec fn wf(&self) -> bool {
        &&& forall|i: int| 0 <= i < self.0@.len() ==> (#[trigger] self.0@[i]).commitment@.len() == 32
        &&& total_size(self.view_pieces(), self.view_pieces().len()) <= u64::MAX
    }

    /// An empty stack.
    pub fn new() -> (s: Stack)
        ensures
            s.wf(),
            s.view_pieces() == Seq::<(Seq<u8>, u64)>::empty(),
    {
        let s = Stack(Vec::new());
        proof {
            assert(s.view_pieces() =~= Seq::<(Seq<u8>, u64)>::empty());
        }
        s
    }

    /// Number of pieces.
    pub fn len(&self) -> (n: usize)
        ensures
            n == self.view_pieces().len(),
    {
        self.0.len()
    }

    /// Pushes a piece on top.
    pub fn shift(&mut self, el: PieceInfo)
        requires
            old(self).wf(),
            el.commitment@.len() == 32,
            total_size(old(self).view_pieces(), old(self).view_pieces().len()) + el.size <= u64::MAX,
        ensures
            final(self).wf(),
            final(self).view_pieces() == old(self).view_pieces().push(piece_model(el)),
    {
        let ghost before = self.view_pieces();
        let ghost m = piece_model(el);
        self.0.push(el);
        proof {
            assert(self.view_pieces() =~= before.push(m));
            lemma_total_agree(before.push(m), before, before.len());
        }
    }

    /// The top piece.
    pub fn peek(&self) -> (p: &PieceInfo)
        requires
            self.view_pieces().len() >= 1,
        ensures
            piece_model(*p) == self.view_pieces().last(),
    {
        &self.0[self.0.len() - 1]
    }

    /// The piece below the top.
    pub fn peek2(&self) -> (p: &PieceInfo)
        requires
            self.view_pieces().len() >= 2,
        ensures
            piece_model(*p) == self.view_pieces()[self.view_pieces().len() - 2],
    {
        &self.0[self.0.len() - 2]
    }

    /// Removes and returns the top piece.
    pub fn pop(&mut self) -> (p: PieceInfo)
        requires
            old(self).wf(),
            old(self).view_pieces().len() >= 1,
        ensures
            final(self).wf(),
            piece_model(p) == old(self).view_pieces().last(),
            p.commitment@.len() == 32,
            final(self).view_pieces() == old(self).view_pieces().drop_last(),
    {
        let ghost before = self.view_pieces();
        let p = match self.0.pop() {
            Some(p) => p,
            None => PieceInfo { commitment: Vec::new(), size: 0 },
        };
        proof {
            assert(self.view_pieces() =~= before.drop_last());
            lemma_total_agree(before.drop_last(), before, (before.len() - 1) as nat);
            lemma_total_monotone(before, (before.len() - 1) as nat, before.len());
        }
        p
    }

    /// Joins the two top pieces when their sizes agree; whether it did.
    pub fn reduce1(&mut self) -> (joined: bool)
        requires
            old(self).wf(),
        ensures
            final(self).wf(),
            match reduce1_spec(old(self).view_pieces()) {
                Some(t) => joined && final(self).view_pieces() == t,
                None => !joined && final(self).view_pieces() == old(self).view_pieces(),
            },
    {
        if self.len() < 2 {
            return false;
        }
        if self.peek().size == self.peek2().size {
            let ghost s = self.view_pieces();
            let right = self.pop();
            let left = self.pop();
            proof {
                assert(s.drop_last().drop_last() =~= s.take(s.len() - 2));
                lemma_total_agree(s.take(s.len() - 2), s, (s.len() - 2) as nat);
                assert(total_size(s, s.len()) == total_size(s, (s.len() - 1) as nat) + s[s.len() - 1].1);
                assert(total_size(s, (s.len() - 1) as nat) == total_size(s, (s.len() - 2) as nat) + s[s.len() - 2].1);
                assert(left.size == right.size);
            }
            let joined = match join_piece_infos(left, right) {
                Ok(p) => p,
                Err(_) => PieceInfo { commitment: Vec::new(), size: 0 },
            };
            self.shift(joined);
            return true;
        }
        false
    }

    /// Joins top pieces for as long as their sizes agree.
    pub fn reduce(&mut self)
        requires
            old(self).wf(),
        ensures
            final(self).wf(),
            final(self).view_pieces() == reduce_spec(old(self).view_pieces()),
    {
        let ghost target = reduce_spec(self.view_pieces());
        loop
            invariant
                self.wf(),
                reduce_spec(self.view_pieces()) == target,
            ensures
                self.view_pieces() == target,
            decreases self.view_pieces().len(),
        {
            if !self.reduce1() {
                break;
            }
        }
    }

    /// Pushes a piece and reduces the stack.
    pub fn shift_reduce(&mut self, piece: PieceInfo)
        requires
            old(self).wf(),
            piece.commitment@.len() == 32,
            total_size(old(self).view_pieces(), old(self).view_pieces().len()) + piece.size <= u64::MAX,
        ensures
            final(self).wf(),
            final(self).view_pieces() == reduce_spec(old(self).view_pieces().push(piece_model(piece))),
    {
        self.shift(piece);
        self.reduce();
    }
}

/// Two sequences that agree on their first `n` pieces have the same total
/// over them.
proof fn lemma_total_agree(a: Seq<(Seq<u8>, u64)>, b: Seq<(Seq<u8>, u64)>, n: nat)
    requires
        n <= a.len(),
        n <= b.len(),
        forall|i: int| 0 <= i < n ==> a[i] == b[i],
    ensures
        total_size(a, n) == total_size(b, n),
    decreases n,
{
    if n > 0 {
        lemma_total_agree(a, b, (n - 1) as nat);
    }
}


/// Reducing a stack keeps the total size of its pieces: two pieces are only
/// ever joined into one whose size is the sum of theirs.
pub proof fn law_reduce_keeps_total(s: Seq<(Seq<u8>, u64)>)
    requires
        total_size(s, s.len()) <= u64::MAX,
    ensures
        total_size(reduce_spec(s), reduce_spec(s).len()) == total_size(s, s.len()),
    decreases s.len(),
{
    if let Some(t) = reduce1_spec(s) {
        let n = s.len();
        let prefix = s.take(n - 2);
        let j = spec_join(s[n - 2], s[n - 1]);
        assert(t == prefix.push(j));
        assert(total_size(s, (n - 1) as nat) == total_size(s, (n - 2) as nat) + s[n - 2].1);
        assert(total_size(s, n) == total_size(s, (n - 2) as nat) + s[n - 2].1 + s[n - 1].1);
        lemma_total_agree(t, s, (n - 2) as nat);
        assert(total_size(t, t.len()) == total_size(t, (n - 2) as nat) + t[n - 2].1);
        law_reduce_keeps_total(t);
    }
}

} // verus!
