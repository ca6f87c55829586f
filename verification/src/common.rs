//! Identifiers shared by the pallets: miner identifiers and the accounts
//! derived from them, and the shapes of Filecoin addresses.

use vstd::prelude::*;

verus! {

/// Identifier for actors, built in and initialised ones.
pub type ActorID = u64;

/// Hash length of the payload of SECP and actor addresses.
pub const PAYLOAD_HASH_LEN: usize = 20;

/// Length of a BLS public key.
pub const BLS_PUB_LEN: usize = 48;

/// Maximum length of a delegated sub-address.
pub const MAX_SUBADDRESS_LEN: usize = 54;

/// Length of an account identifier in bytes.
pub const ACCOUNT_LEN: usize = 32;

/// A "delegated" (f4) address: a namespace and a sub-address.
#[derive(Copy, Clone, Debug, Hash, PartialEq, Eq, PartialOrd, Ord)]
pub struct DelegatedAddress {
    namespace: ActorID,
    length: u64,
    buffer: [u8; 54],
}

/// The data of an address; the variants are the address protocols.
#[derive(Copy, Clone, Debug, Hash, PartialEq, Eq, PartialOrd, Ord)]
pub enum Payload {
    /// f0: an actor identifier.
    ID(u64),
    /// f1: the 20-byte hash of a SECP256K1 public key.
    Secp256k1([u8; 20]),
    /// f2: the 20-byte hash of actor data.
    Actor([u8; 20]),
    /// f3: a full 48-byte BLS public key.
    BLS([u8; 48]),
    /// f4: a namespace with an arbitrary sub-address.
    Delegated(DelegatedAddress),
}

/// An address: a protocol and its payload.
#[derive(Copy, Clone, Debug, Hash, PartialEq, Eq, PartialOrd, Ord)]
pub struct Address {
    payload: Payload,
}

/// The identifier of a storage miner.
pub struct MinerId(pub u32);

impl Default for MinerId {
    fn default() -> (m: MinerId)
        ensures
            m.0 == 0,
    {
        MinerId(0)
    }
}

/// The bytes `b"miner"`.
pub open spec fn miner_prefix() -> Seq<u8> {
    seq![0x6du8, 0x69u8, 0x6eu8, 0x65u8, 0x72u8]
}

/// The little-endian encoding of `x`.
pub open spec fn u32_le(x: u32) -> Seq<u8> {
    seq![(x % 256) as u8, ((x / 256) % 256) as u8, ((x / 65536) % 256) as u8, (x / 16777216) as u8]
}

/// The value of four little-endian bytes.
pub open spec fn le_u32(b: Seq<u8>) -> u32
    recommends
        b.len() == 4,
{
    (b[0] + 256 * b[1] + 65536 * b[2] + 16777216 * b[3]) as u32
}

/// `n` zero bytes.
pub open spec fn zeros(n: nat) -> Seq<u8> {
    Seq::new(n, |i: int| 0u8)
}

/// The account of `n` bytes of miner `id`: `b"miner"`, the identifier in
/// little-endian order, then zeros up to the account's length.
pub open spec fn miner_account_of_len(id: u32, n: nat) -> Seq<u8> {
    miner_prefix() + u32_le(id) + zeros((n - 9) as nat)
}

/// The account of miner `id`, of this chain's account length.
pub open spec fn miner_account(id: u32) -> Seq<u8> {
    miner_account_of_len(id, ACCOUNT_LEN as nat)
}

/// The miner whose account is `a`, if `a` is the account of a miner.
pub open spec fn miner_of_account(a: Seq<u8>) -> Option<u32> {
    if a.take(5) == miner_prefix() && a.skip(9) == zeros((a.len() - 9) as nat) {
        Some(le_u32(a.subrange(5, 9)))
    } else {
        None
    }
}

/// An input that reads the bytes it holds and then zeros without end.
pub struct TrailingZeroInput<'a> {
    data: &'a [u8],
    pos: usize,
}

impl<'a> TrailingZeroInput<'a> {
    /// The bytes still to be read before the zeros.
    pub closed spec fn rest(&self) -> Seq<u8> {
        self.data@.skip(self.pos as int)
    }

    /// The position lies within the data.
    pub closed spec fn wf(&self) -> bool {
        self.pos <= self.data@.len()
    }

    /// An input over `data`.
    pub fn new(data: &'a [u8]) -> (t: TrailingZeroInput<'a>)
        ensures
            t.wf(),
            t.rest() == data@,
    {
        let t = TrailingZeroInput { data, pos: 0 };
        proof {
            assert(data@.skip(0) =~= data@);
        }
        t
    }

    /// How many bytes are left: unknown, since zeros follow without end.
    pub fn remaining_len(&self) -> (r: Option<usize>)
        ensures
            r is None,
    {
        None
    }

    /// Fills `into` with the next bytes: those left, then zeros.
    pub fn read(&mut self, into: &mut Vec<u8>)
        requires
            old(self).wf(),
        ensures
            final(into)@.len() == old(into)@.len(),
            ({
                let n = if old(into)@.len() <= old(self).rest().len() {
                    old(into)@.len() as int
                } else {
                    old(self).rest().len() as int
                };
                &&& final(into)@ == old(self).rest().take(n) + zeros((old(into)@.len() - n) as nat)
                &&& final(self).rest() == old(self).rest().skip(n)
            }),
            final(self).wf(),
    {
        let ghost rest0 = self.rest();
        let avail = self.data.len() - self.pos;
        let len = if into.len() <= avail {
            into.len()
        } else {
            avail
        };
        let mut i: usize = 0;
        while i < into.len()
            invariant
                self.pos + avail == self.data@.len(),
                self.pos + avail == self.data.len(),
                rest0 == self.data@.skip(self.pos as int),
                len <= into.len(),
                len <= avail,
                i <= into.len(),
                into@.len() == old(into)@.len(),
                forall|j: int| 0 <= j < i ==> into@[j] == if j < len {
                    rest0[j]
                } else {
                    0u8
                },
            decreases into.len() - i,
        {
            if i < len {
                let b = self.data[self.pos + i];
                into.set(i, b);
            } else {
                into.set(i, 0);
            }
            i += 1;
        }
        proof {
            assert(into@ =~= rest0.take(len as int) + zeros((into@.len() - len) as nat));
        }
        self.pos = self.pos + len;
        proof {
            assert(self.data@.skip(self.pos as int) =~= rest0.skip(len as int));
        }
    }
}

impl MinerId {
    /// The account of this miner: `b"miner"`, the identifier in
    /// little-endian order, then zeros.
    pub fn into_account(&self) -> (a: Vec<u8>)
        ensures
            a@ == miner_account(self.0),
    {
        let id = self.0;
        let mut encoded: Vec<u8> = Vec::new();
        encoded.push(0x6d);
        encoded.push(0x69);
        encoded.push(0x6e);
        encoded.push(0x65);
        encoded.push(0x72);
        encoded.push((id % 256) as u8);
        encoded.push(((id / 256) % 256) as u8);
        encoded.push(((id / 65536) % 256) as u8);
        encoded.push((id / 16777216) as u8);
        let mut input = TrailingZeroInput::new(encoded.as_slice());
        let mut account: Vec<u8> = Vec::new();
        let mut i: usize = 0;
        while i < ACCOUNT_LEN
            invariant
                i <= ACCOUNT_LEN,
                account@.len() == i,
            decreases ACCOUNT_LEN - i,
        {
            account.push(0);
            i += 1;
        }
        input.read(&mut account);
        proof {
            assert(account@ =~= miner_account(id));
        }
        account
    }

    /// The miner whose account is `a`: `a` must start with `b"miner"` and
    /// end in zeros after the identifier.
    pub fn try_from_account(a: &Vec<u8>) -> (r: Option<MinerId>)
        requires
            a@.len() == ACCOUNT_LEN,
        ensures
            match miner_of_account(a@) {
                Some(id) => r matches Some(m) && m.0 == id,
                None => r is None,
            },
    {
        let prefix = a[0] == 0x6d && a[1] == 0x69 && a[2] == 0x6e && a[3] == 0x65 && a[4] == 0x72;
        proof {
            assert(prefix <==> a@.take(5) == miner_prefix()) by {
                if prefix {
                    assert(a@.take(5) =~= miner_prefix());
                }
                if a@.take(5) == miner_prefix() {
                    assert(a@.take(5)[0] == a@[0]);
                    assert(a@.take(5)[1] == a@[1]);
                    assert(a@.take(5)[2] == a@[2]);
                    assert(a@.take(5)[3] == a@[3]);
                    assert(a@.take(5)[4] == a@[4]);
                }
            }
        }
        if !prefix {
            return None;
        }
        let id: u32 = a[5] as u32 + 256 * (a[6] as u32) + 65536 * (a[7] as u32) + 16777216 * (a[8] as u32);
        let mut i: usize = 9;
        while i < a.len()
            invariant
                9 <= i <= a.len(),
                a@.len() == ACCOUNT_LEN,
                forall|j: int| 9 <= j < i ==> a@[j] == 0,
            decreases a.len() - i,
        {
            if a[i] != 0 {
                proof {
                    assert(a@.skip(9)[i - 9] != zeros(23)[i - 9]);
                }
                return None;
            }
            i += 1;
        }
        proof {
            assert(a@.skip(9) =~= zeros(23));
            assert(a@.subrange(5, 9)[0] == a@[5]);
            assert(a@.subrange(5, 9)[1] == a@[6]);
            assert(a@.subrange(5, 9)[2] == a@[7]);
            assert(a@.subrange(5, 9)[3] == a@[8]);
        }
        Some(MinerId(id))
    }
}

/// Reading back the account of a miner gives the miner, for accounts of any
/// length that holds the prefix and the identifier.
pub proof fn law_miner_account_roundtrip(id: u32, n: nat)
    requires
        n >= 9,
    ensures
        miner_account_of_len(id, n).len() == n,
        miner_of_account(miner_account_of_len(id, n)) == Some(id),
{
    let a = miner_account_of_len(id, n);
    assert(a.take(5) =~= miner_prefix());
    assert(a.skip(9) =~= zeros((n - 9) as nat));
    assert(a.subrange(5, 9) =~= u32_le(id));
    let b = u32_le(id);
    assert(b[0] + 256 * b[1] + 65536 * b[2] + 16777216 * b[3] == id) by (nonlinear_arith)
        requires
            b[0] == id % 256,
            b[1] == (id / 256) % 256,
            b[2] == (id / 65536) % 256,
            b[3] == id / 16777216,
            id < 0x1_0000_0000,
    ;
}

/// An account that reads as a miner is that miner's account of its length.
pub proof fn law_account_of_miner(a: Seq<u8>)
    requires
        a.len() >= 9,
        miner_of_account(a) is Some,
    ensures
        miner_account_of_len(miner_of_account(a)->Some_0, a.len()) == a,
{
    let id = miner_of_account(a)->Some_0;
    let s = a.subrange(5, 9);
    let v = s[0] + 256 * s[1] + 65536 * s[2] + 16777216 * s[3];
    assert(v < 0x1_0000_0000) by (nonlinear_arith)
        requires
            0 <= s[0] < 256,
            0 <= s[1] < 256,
            0 <= s[2] < 256,
            0 <= s[3] < 256,
            v == s[0] + 256 * s[1] + 65536 * s[2] + 16777216 * s[3],
    ;
    assert(id == v);
    assert(v % 256 == s[0] && (v / 256) % 256 == s[1] && (v / 65536) % 256 == s[2] && v / 16777216 == s[3])
        by (nonlinear_arith)
        requires
            0 <= s[0] < 256,
            0 <= s[1] < 256,
            0 <= s[2] < 256,
            0 <= s[3] < 256,
            v == s[0] + 256 * s[1] + 65536 * s[2] + 16777216 * s[3],
    ;
    assert(a.take(5) + s + a.skip(9) =~= a);
    assert(u32_le(id) =~= s);
    assert(miner_account_of_len(id, a.len()) =~= a);
}

} // verus!
