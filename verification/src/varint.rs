//! Unsigned LEB128 variable-length integers, as used for every length and
//! code in CIDs, multihashes and CAR framing.
use vstd::prelude::*;

verus! {

/// Largest number of bytes a `u64` varint may occupy.
pub const MAX_VARINT_LEN: usize = 10;

/// `128` raised to the power `n`.
pub open spec fn pow128(n: nat) -> nat
    decreases n,
{
    if n == 0 {
        1
    } else {
        128 * pow128((n - 1) as nat)
    }
}

/// The canonical (shortest) LEB128 encoding of `v`: seven bits per byte,
/// least significant group first, the high bit set on every byte but the last.
pub open spec fn varint_encode(v: nat) -> Seq<u8>
    decreases v,
{
    if v < 128 {
        seq![v as u8]
    } else {
        seq![((v % 128) + 128) as u8] + varint_encode(v / 128)
    }
}

/// Number of bytes of the canonical encoding of `v`.
pub open spec fn varint_len(v: nat) -> nat {
    varint_encode(v).len()
}

/// Reads one unbounded LEB128 number from the front of `s`: the value and the
/// number of bytes it occupies, or `None` when `s` ends before a byte with a
/// clear high bit.
pub open spec fn decode_raw(s: Seq<u8>) -> Option<(nat, nat)>
    decreases s.len(),
{
    if s.len() == 0 {
        None
    } else if s[0] < 128 {
        Some((s[0] as nat, 1))
    } else {
        match decode_raw(s.drop_first()) {
            Some((v, n)) => Some((((s[0] - 128) + 128 * v) as nat, n + 1)),
            None => None,
        }
    }
}

/// Reads one `u64` varint from the front of `s`: the terminating byte must be
/// among the first ten bytes and the value must fit in 64 bits.
pub open spec fn varint_decode(s: Seq<u8>) -> Option<(u64, nat)> {
    let window = if s.len() <= 10 { s } else { s.take(10) };
    match decode_raw(window) {
        Some((v, n)) => if v <= u64::MAX {
            Some((v as u64, n))
        } else {
            None
        },
        None => None,
    }
}

proof fn lemma_decode_raw_bounds(s: Seq<u8>)
    ensures
        decode_raw(s) matches Some((v, n)) ==> 1 <= n <= s.len() && v < pow128(n),
    decreases s.len(),
{
    reveal_with_fuel(pow128, 2);
    if s.len() > 0 && s[0] >= 128 {
        lemma_decode_raw_bounds(s.drop_first());
        if let Some((v1, n1)) = decode_raw(s.drop_first()) {
            let b = (s[0] - 128) as int;
            assert(0 <= b < 128);
            assert(b + 128 * v1 < 128 * pow128(n1)) by (nonlinear_arith)
                requires
                    0 <= b < 128,
                    v1 < pow128(n1),
            ;
            assert(pow128(n1 + 1) == 128 * pow128(n1));
        }
    }
}

proof fn lemma_decode_raw_prefix(s: Seq<u8>, k: int)
    requires
        0 <= k <= s.len(),
        decode_raw(s.take(k)) is Some,
    ensures
        decode_raw(s) == decode_raw(s.take(k)),
    decreases s.len(),
{
    if s.len() > 0 && s[0] >= 128 {
        assert(s.take(k).drop_first() == s.drop_first().take(k - 1));
        lemma_decode_raw_prefix(s.drop_first(), k - 1);
    }
}

/// Decoding the canonical encoding of `v`, followed by anything, gives back `v`
/// and the length of its encoding.
pub proof fn lemma_decode_raw_encode(v: nat, rest: Seq<u8>)
    ensures
        decode_raw(varint_encode(v) + rest) == Some((v, varint_len(v))),
    decreases v,
{
    let s = varint_encode(v) + rest;
    if v >= 128 {
        lemma_decode_raw_encode(v / 128, rest);
        assert(s.drop_first() == varint_encode(v / 128) + rest);
    }
}

/// The encoding of a value below `128^k` takes at most `k` bytes.
pub proof fn lemma_varint_len_bound(v: nat, k: nat)
    requires
        k >= 1,
        v < pow128(k),
    ensures
        1 <= varint_len(v) <= k,
    decreases v,
{
    if v >= 128 {
        assert(k >= 2) by {
            if k == 1 {
                reveal_with_fuel(pow128, 2);
                assert(pow128(1) == 128);
            }
        }
        lemma_varint_len_bound(v / 128, (k - 1) as nat);
    }
}

proof fn lemma_pow128_ten()
    ensures
        pow128(10) == 0x40_0000_0000_0000_0000u128,
        pow128(9) == 0x8000_0000_0000_0000u128,
{
    reveal_with_fuel(pow128, 11);
    assert(pow128(1) == 0x80);
    assert(pow128(2) == 0x4000);
    assert(pow128(3) == 0x20_0000);
    assert(pow128(4) == 0x1000_0000);
    assert(pow128(5) == 0x8_0000_0000);
    assert(pow128(6) == 0x400_0000_0000);
    assert(pow128(7) == 0x2_0000_0000_0000);
    assert(pow128(8) == 0x100_0000_0000_0000);
}

/// Every `u64` encodes in at most ten bytes.
pub proof fn lemma_u64_varint_len(v: u64)
    ensures
        1 <= varint_len(v as nat) <= 10,
{
    lemma_pow128_ten();
    lemma_varint_len_bound(v as nat, 10);
}

/// Round trip: reading a varint back from its canonical encoding, followed by
/// any bytes, gives the value and the number of bytes written.
pub proof fn lemma_varint_roundtrip(v: u64, rest: Seq<u8>)
    ensures
        varint_decode(varint_encode(v as nat) + rest) == Some((v, varint_len(v as nat))),
{
    let s = varint_encode(v as nat) + rest;
    lemma_u64_varint_len(v);
    lemma_decode_raw_encode(v as nat, rest);
    if s.len() > 10 {
        let n = varint_len(v as nat);
        lemma_decode_raw_encode(v as nat, Seq::<u8>::empty());
        assert(s.take(10).take(n as int) == varint_encode(v as nat) + Seq::<u8>::empty());
        lemma_decode_raw_prefix(s.take(10), n as int);
    }
}

/// Writes the canonical encoding of `v`.
pub fn encode_varint(v: u64) -> (out: Vec<u8>)
    ensures
        out@ == varint_encode(v as nat),
{
    let mut out: Vec<u8> = Vec::new();
    let mut cur: u64 = v;
    while cur >= 128
        invariant
            out@ + varint_encode(cur as nat) == varint_encode(v as nat),
        decreases cur,
    {
        let byte: u8 = (cur % 128 + 128) as u8;
        out.push(byte);
        proof {
            assert(varint_encode(cur as nat) == seq![byte] + varint_encode((cur / 128) as nat));
            assert(out@ + varint_encode((cur / 128) as nat) == varint_encode(v as nat));
        }
        cur = cur / 128;
    }
    out.push(cur as u8);
    out
}

/// Appends the canonical encoding of `v` to `buf`.
pub fn write_varint(buf: &mut Vec<u8>, v: u64)
    ensures
        final(buf)@ == old(buf)@ + varint_encode(v as nat),
{
    let enc = encode_varint(v);
    let mut i: usize = 0;
    while i < enc.len()
        invariant
            i <= enc.len(),
            buf@ == old(buf)@ + enc@.take(i as int),
        decreases enc.len() - i,
    {
        buf.push(enc[i]);
        proof {
            assert(enc@.take(i + 1) == enc@.take(i as int).push(enc@[i as int]));
        }
        i += 1;
    }
    proof {
        assert(enc@.take(enc.len() as int) == enc@);
    }
}

/// The number of bytes the canonical encoding of `v` takes.
pub fn required_space(v: u64) -> (n: usize)
    ensures
        n == varint_len(v as nat),
        1 <= n <= MAX_VARINT_LEN,
{
    let mut n: usize = 1;
    let mut cur: u64 = v;
    proof {
        lemma_u64_varint_len(v);
    }
    while cur >= 128
        invariant
            n + varint_len(cur as nat) == varint_len(v as nat) + 1,
            varint_len(v as nat) <= 10,
            n >= 1,
        decreases cur,
    {
        proof {
            assert(varint_encode(cur as nat) == seq![((cur % 128) + 128) as u8]
                + varint_encode((cur / 128) as nat));
        }
        n = n + 1;
        cur = cur / 128;
    }
    n
}

fn decode_raw_at(buf: &[u8], pos: usize, end: usize) -> (res: Option<(u128, usize)>)
    requires
        pos <= end <= buf.len(),
        end - pos <= 10,
    ensures
        match decode_raw(buf@.subrange(pos as int, end as int)) {
            Some((v, n)) => res matches Some((rv, rn)) && rv == v && rn == n,
            None => res is None,
        },
    decreases end - pos,
{
    let ghost s = buf@.subrange(pos as int, end as int);
    proof {
        lemma_decode_raw_bounds(s);
    }
    if pos == end {
        return None;
    }
    let b = buf[pos];
    if b < 128 {
        return Some((b as u128, 1));
    }
    proof {
        assert(s.drop_first() == buf@.subrange(pos + 1, end as int));
        lemma_decode_raw_bounds(s.drop_first());
    }
    match decode_raw_at(buf, pos + 1, end) {
        Some((v, n)) => {
            proof {
                lemma_pow128_ten();
                assert(pow128(n as nat) <= pow128(9)) by {
                    reveal_with_fuel(pow128, 10);
                    assert(n <= 9);
                    if n == 9 {} else if n == 8 {} else if n == 7 {} else if n == 6 {}
                    else if n == 5 {} else if n == 4 {} else if n == 3 {} else if n == 2 {}
                    else {}
                }
                reveal_with_fuel(pow128, 10);
            }
            Some(((b - 128) as u128 + 128 * v, n + 1))
        },
        None => None,
    }
}

/// A decoded varint occupies at least one byte and no more than the input.
pub proof fn lemma_varint_decode_bounds(s: Seq<u8>)
    ensures
        varint_decode(s) matches Some((v, n)) ==> 1 <= n <= s.len(),
{
    let window = if s.len() <= 10 {
        s
    } else {
        s.take(10)
    };
    lemma_decode_raw_bounds(window);
}

/// Reads one `u64` varint starting at `pos`: its value and the number of bytes
/// it occupies, or `None` when the bytes there are no such varint.
pub fn read_varint(buf: &[u8], pos: usize) -> (res: Option<(u64, usize)>)
    requires
        pos <= buf.len(),
    ensures
        match varint_decode(buf@.skip(pos as int)) {
            Some((v, n)) => res matches Some((rv, rn)) && rv == v && rn == n,
            None => res is None,
        },
        res matches Some((v, n)) ==> 1 <= n <= 10 && pos + n <= buf.len(),
{
    let avail = buf.len() - pos;
    let end = if avail <= 10 { buf.len() } else { pos + 10 };
    proof {
        let s = buf@.skip(pos as int);
        if s.len() <= 10 {
            assert(buf@.subrange(pos as int, end as int) == s);
        } else {
            assert(buf@.subrange(pos as int, end as int) == s.take(10));
        }
        lemma_decode_raw_bounds(buf@.subrange(pos as int, end as int));
    }
    let r = decode_raw_at(buf, pos, end);
    proof {
        let s = buf@.skip(pos as int);
        let window = if s.len() <= 10 { s } else { s.take(10) };
        assert(window == buf@.subrange(pos as int, end as int));
        assert(varint_decode(s) == match decode_raw(window) {
            Some((v, n)) => if v <= u64::MAX { Some((v as u64, n)) } else { None },
            None => None,
        });
    }
    match r {
        Some((v, n)) => {
            if v <= u64::MAX as u128 {
                Some((v as u64, n))
            } else {
                None
            }
        },
        None => None,
    }
}

} // verus!
