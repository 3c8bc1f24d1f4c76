//! Variable-length integer encoding (Varint).
//!
//! Seven bits per byte carry data, least significant group first; the high
//! bit of a byte says that more bytes follow.
use vstd::prelude::*;
use crate::error::{Error, Result};
use crate::text::string_of;

verus! {

/// 128 to the power `n`.
pub open spec fn pow128(n: nat) -> nat
    decreases n,
{
    if n == 0 { 1 } else { 128 * pow128((n - 1) as nat) }
}

/// The bytes of the varint encoding of `v`.
pub open spec fn varint_bytes(v: nat) -> Seq<u8>
    decreases v,
{
    if v < 128 {
        seq![v as u8]
    } else {
        seq![(v % 128 + 128) as u8] + varint_bytes(v / 128)
    }
}

/// The number that the low seven bits of each byte spell, least significant
/// group first.
pub open spec fn groups_value(s: Seq<u8>) -> nat
    decreases s.len(),
{
    if s.len() == 0 {
        0
    } else {
        groups_value(s.drop_last()) + (s.last() % 128) as nat * pow128((s.len() - 1) as nat)
    }
}

/// The number of leading bytes that have the continuation bit set.
pub open spec fn continuation_run(s: Seq<u8>) -> nat
    decreases s.len(),
{
    if s.len() == 0 || s[0] < 128 {
        0
    } else {
        1 + continuation_run(s.drop_first())
    }
}

/// What decoding a varint at the start of `s` gives: the value (truncated
/// to 64 bits) and the number of bytes read, or the error message.
pub open spec fn spec_varint_decode(s: Seq<u8>) -> core::result::Result<(u64, nat), Seq<char>> {
    let m = continuation_run(s);
    if m < 10 {
        if m < s.len() {
            Ok(((groups_value(s.subrange(0, (m + 1) as int)) % 0x1_0000_0000_0000_0000nat) as u64, m + 1))
        } else {
            Err("Incomplete varint"@)
        }
    } else if s.len() <= 10 {
        Err("Incomplete varint"@)
    } else {
        Err("Varint overflow"@)
    }
}

/// The zigzag mapping of signed to unsigned integers.
pub open spec fn zigzag(v: int) -> nat {
    if v >= 0 { (2 * v) as nat } else { (-2 * v - 1) as nat }
}

/// The inverse of the zigzag mapping.
pub open spec fn unzigzag(z: nat) -> int {
    if z % 2 == 0 { (z / 2) as int } else { -((z / 2) as int) - 1 }
}

/// What decoding a zigzag varint at the start of `s` gives.
pub open spec fn spec_varint_decode_signed(s: Seq<u8>) -> core::result::Result<(i64, nat), Seq<char>> {
    match spec_varint_decode(s) {
        Ok((z, n)) => Ok((unzigzag(z as nat) as i64, n)),
        Err(m) => Err(m),
    }
}

/// Whether a decode result agrees with the expected one.
pub open spec fn decode_agrees<T>(r: Result<(T, usize)>, s: core::result::Result<(T, nat), Seq<char>>) -> bool {
    match (r, s) {
        (Ok((v, n)), Ok((w, k))) => v == w && n == k,
        (Err(Error::RecordError(m)), Err(sm)) => m@ == sm,
        _ => false,
    }
}

/// Variable-length integer encoding (Varint)
pub struct Varint;

proof fn lemma_pow128_pos(n: nat)
    ensures
        pow128(n) >= 1,
    decreases n,
{
    if n > 0 {
        lemma_pow128_pos((n - 1) as nat);
    }
}

/// Putting a byte in front multiplies the value of the rest by 128.
pub proof fn lemma_groups_value_cons(x: u8, t: Seq<u8>)
    ensures
        groups_value(seq![x] + t) == (x % 128) as nat + 128 * groups_value(t),
    decreases t.len(),
{
    let s = seq![x] + t;
    if t.len() == 0 {
        assert(s.drop_last() =~= Seq::<u8>::empty());
        assert(s.last() == x);
        assert(groups_value(s.drop_last()) == 0);
        assert(pow128(0) == 1);
        assert(groups_value(s) == groups_value(s.drop_last()) + (x % 128) as nat * pow128(0));
    } else {
        assert(s.drop_last() =~= seq![x] + t.drop_last());
        lemma_groups_value_cons(x, t.drop_last());
        assert(s.last() == t.last());
        let p = pow128((t.len() - 1) as nat);
        let l = (t.last() % 128) as nat;
        let g = groups_value(t.drop_last());
        assert(pow128((s.len() - 1) as nat) == 128 * p);
        assert(groups_value(s) == groups_value(s.drop_last()) + l * pow128((s.len() - 1) as nat));
        assert(groups_value(s.drop_last()) == (x % 128) as nat + 128 * g);
        assert(groups_value(t) == g + l * p);
        assert(l * (128 * p) + 128 * g == 128 * (g + l * p)) by (nonlinear_arith);
    }
}

/// The encoding of `v` spells `v`, ends with the only byte whose high bit is
/// clear, and is at most ten bytes long.
pub proof fn lemma_varint_bytes_props(v: nat)
    ensures
        groups_value(varint_bytes(v)) == v,
        varint_bytes(v).len() >= 1,
        continuation_run(varint_bytes(v)) == varint_bytes(v).len() - 1,
        v < pow128(varint_bytes(v).len()),
        v >= 128 ==> v >= pow128((varint_bytes(v).len() - 1) as nat),
    decreases v,
{
    if v < 128 {
        let s = varint_bytes(v);
        assert(s.drop_last() =~= Seq::<u8>::empty());
        assert(pow128(0) == 1);
        assert(pow128(1) == 128);
        assert(s.last() == v as u8);
        assert(groups_value(s) == groups_value(s.drop_last()) + (s.last() % 128) as nat * pow128(0));
    } else {
        lemma_varint_bytes_props(v / 128);
        let t = varint_bytes(v / 128);
        let x = (v % 128 + 128) as u8;
        lemma_groups_value_cons(x, t);
        assert(varint_bytes(v) == seq![x] + t);
        assert((seq![x] + t).drop_first() =~= t);
        assert(pow128((t.len() + 1) as nat) == 128 * pow128(t.len()));
        if v / 128 >= 128 {
            assert(pow128(t.len()) == 128 * pow128((t.len() - 1) as nat));
        } else {
            assert(t.len() == 1);
            assert(pow128(1) == 128);
        }
    }
}

/// A `u64` needs at most ten bytes.
pub proof fn lemma_varint_len_u64(v: u64)
    ensures
        varint_bytes(v as nat).len() <= 10,
{
    lemma_varint_bytes_props(v as nat);
    let n = varint_bytes(v as nat).len();
    if n > 10 {
        lemma_pow128_monotone(10, (n - 1) as nat);
        lemma_pow128_values();
    }
}

proof fn lemma_pow128_values()
    ensures
        pow128(1) == 128,
        pow128(9) == 0x8000_0000_0000_0000nat,
        pow128(10) == 1180591620717411303424nat,
{
    assert(pow128(0) == 1);
    assert(pow128(1) == 128);
    assert(pow128(2) == 16384);
    assert(pow128(3) == 2097152);
    assert(pow128(4) == 268435456);
    assert(pow128(5) == 34359738368);
    assert(pow128(6) == 4398046511104);
    assert(pow128(7) == 562949953421312);
    assert(pow128(8) == 72057594037927936);
    assert(pow128(9) == 9223372036854775808);
    assert(pow128(10) == 1180591620717411303424);
}

proof fn lemma_pow128_monotone(a: nat, b: nat)
    requires
        a <= b,
    ensures
        pow128(a) <= pow128(b),
    decreases b,
{
    if a < b {
        lemma_pow128_monotone(a, (b - 1) as nat);
        lemma_pow128_pos((b - 1) as nat);
    }
}

/// Decoding the encoding of a `u64`, whatever follows it, gives the number
/// back together with the encoding's length.
pub proof fn lemma_varint_roundtrip(v: u64, rest: Seq<u8>)
    ensures
        spec_varint_decode(varint_bytes(v as nat) + rest) == Ok::<(u64, nat), Seq<char>>((v, varint_bytes(v as nat).len())),
{
    let e = varint_bytes(v as nat);
    let s = e + rest;
    lemma_varint_bytes_props(v as nat);
    lemma_varint_len_u64(v);
    lemma_continuation_run_prefix(e, rest);
    assert(s.subrange(0, e.len() as int) =~= e);
}

proof fn lemma_continuation_run_prefix(e: Seq<u8>, rest: Seq<u8>)
    requires
        e.len() >= 1,
        continuation_run(e) == e.len() - 1,
    ensures
        continuation_run(e + rest) == e.len() - 1,
    decreases e.len(),
{
    if e.len() > 1 {
        assert(e[0] >= 128);
        assert((e + rest).drop_first() =~= e.drop_first() + rest);
        lemma_continuation_run_prefix(e.drop_first(), rest);
    } else {
        assert((e + rest)[0] == e[0]);
    }
}

/// The continuation run ends inside the first `k` bytes when the byte at
/// position `k` is the first one with a clear high bit.
proof fn lemma_continuation_run_exact(s: Seq<u8>, k: nat)
    requires
        k < s.len(),
        s[k as int] < 128,
        forall|j: int| 0 <= j < k ==> s[j] >= 128,
    ensures
        continuation_run(s) == k,
    decreases k,
{
    if k > 0 {
        lemma_continuation_run_exact(s.drop_first(), (k - 1) as nat);
    }
}

/// The continuation run is at least `k` when the first `k` bytes all have
/// the high bit set.
proof fn lemma_continuation_run_at_least(s: Seq<u8>, k: nat)
    requires
        k <= s.len(),
        forall|j: int| 0 <= j < k ==> s[j] >= 128,
    ensures
        continuation_run(s) >= k,
    decreases k,
{
    if k > 0 {
        lemma_continuation_run_at_least(s.drop_first(), (k - 1) as nat);
    }
}

proof fn lemma_continuation_run_le(s: Seq<u8>)
    ensures
        continuation_run(s) <= s.len(),
    decreases s.len(),
{
    if s.len() > 0 && s[0] >= 128 {
        lemma_continuation_run_le(s.drop_first());
    }
}

proof fn lemma_groups_bound(s: Seq<u8>)
    ensures
        groups_value(s) < pow128(s.len()),
    decreases s.len(),
{
    if s.len() > 0 {
        lemma_groups_bound(s.drop_last());
        let p = pow128((s.len() - 1) as nat);
        assert(pow128(s.len()) == 128 * p);
        assert((s.last() % 128) as nat * p <= 127 * p) by (nonlinear_arith)
            requires (s.last() % 128) as nat <= 127;
    }
}

impl Varint {
    /// Encode a u64 as a varint
    pub fn encode(value: u64) -> (r: Vec<u8>)
        ensures
            r@ == varint_bytes(value as nat),
            r@.len() <= 10,
    {
        proof { lemma_varint_len_u64(value); }
        let ghost v0 = value;
        let mut result: Vec<u8> = Vec::new();
        let mut value = value;
        loop
            invariant_except_break
                result@ + varint_bytes(value as nat) == varint_bytes(v0 as nat),
            ensures
                result@ == varint_bytes(v0 as nat),
            decreases value,
        {
            let mut byte: u8 = (value % 128) as u8;
            let ghost before = value;
            value = value / 128;
            if value != 0 {
                byte = byte + 128;
            }
            result.push(byte);
            if value == 0 {
                assert(result@ =~= varint_bytes(v0 as nat));
                break;
            }
            assert(varint_bytes(before as nat) == seq![byte] + varint_bytes(value as nat));
            assert(result@ + varint_bytes(value as nat) =~= varint_bytes(v0 as nat));
        }
        result
    }

    /// Decode a varint from bytes; returns (value, bytes_consumed)
    pub fn decode(bytes: &[u8]) -> (r: Result<(u64, usize)>)
        ensures
            decode_agrees(r, spec_varint_decode(bytes@)),
    {
        let ghost s = bytes@;
        let mut value: u64 = 0;
        let mut mult: u64 = 1;
        let mut index: usize = 0;
        loop
            invariant
                index <= s.len(),
                index <= 10,
                s == bytes@,
                forall|j: int| 0 <= j < index ==> s[j] >= 128,
                index <= 9 ==> value as nat == groups_value(s.subrange(0, index as int)),
                index <= 9 ==> mult as nat == pow128(index as nat),
            decreases 10 - index,
        {
            if index >= bytes.len() {
                proof {
                    lemma_continuation_run_at_least(s, index as nat);
                    lemma_continuation_run_le(s);
                }
                return Err(Error::RecordError(string_of("Incomplete varint")));
            }
            if index >= 10 {
                proof {
                    lemma_continuation_run_at_least(s, index as nat);
                }
                return Err(Error::RecordError(string_of("Varint overflow")));
            }
            let byte = bytes[index];
            let low: u64 = (byte % 128) as u64;
            let ghost prefix = s.subrange(0, index as int);
            let ghost next = s.subrange(0, index + 1);
            proof {
                assert(next.drop_last() =~= prefix);
                assert(next.last() == byte);
                assert(groups_value(next) == groups_value(prefix) + low as nat * pow128(index as nat));
                lemma_groups_bound(prefix);
            }
            if index < 9 {
                proof {
                    lemma_pow128_values();
                    lemma_pow128_monotone((index + 1) as nat, 9);
                    assert(pow128((index + 1) as nat) == 128 * pow128(index as nat));
                    assert((value as nat) + (low as nat) * (mult as nat) < 128 * (mult as nat)) by (nonlinear_arith)
                        requires (value as nat) < mult as nat, low <= 127;
                }
                value = value + low * mult;
                mult = mult * 128;
            } else {
                proof {
                    lemma_pow128_values();
                    assert(((value as nat) + (low as nat) * 0x8000_0000_0000_0000nat) % 0x1_0000_0000_0000_0000nat
                        == (value as nat) + ((low % 2) as nat) * 0x8000_0000_0000_0000nat) by (nonlinear_arith)
                        requires (value as nat) < 0x8000_0000_0000_0000nat, low <= 127;
                }
                value = value + (low % 2) * 0x8000_0000_0000_0000u64;
            }
            index = index + 1;
            if byte < 128 {
                proof {
                    lemma_continuation_run_exact(s, (index - 1) as nat);
                    if index <= 9 {
                        lemma_groups_bound(next);
                        lemma_pow128_monotone(index as nat, 9);
                        lemma_pow128_values();
                    }
                }
                return Ok((value, index));
            }
        }
    }

    /// Encode a signed integer as a varint using zigzag encoding
    pub fn encode_signed(value: i64) -> (r: Vec<u8>)
        ensures
            r@ == varint_bytes(zigzag(value as int)),
    {
        let z: u64 = if value >= 0 {
            (value as u64) * 2
        } else {
            ((-(value + 1)) as u64) * 2 + 1
        };
        Self::encode(z)
    }

    /// Decode a signed integer from a varint using zigzag encoding
    pub fn decode_signed(bytes: &[u8]) -> (r: Result<(i64, usize)>)
        ensures
            decode_agrees(r, spec_varint_decode_signed(bytes@)),
    {
        let (zz, consumed) = match Self::decode(bytes) {
            Ok(p) => p,
            Err(e) => return Err(e),
        };
        let half: u64 = zz / 2;
        let value: i64 = if zz % 2 == 0 {
            half as i64
        } else {
            -(half as i64) - 1
        };
        Ok((value, consumed))
    }
}

/// Decoding the zigzag encoding of a signed integer gives it back.
pub proof fn lemma_varint_signed_roundtrip(v: i64, rest: Seq<u8>)
    ensures
        spec_varint_decode_signed(varint_bytes(zigzag(v as int)) + rest)
            == Ok::<(i64, nat), Seq<char>>((v, varint_bytes(zigzag(v as int)).len())),
{
    let z = zigzag(v as int);
    assert(z <= u64::MAX);
    lemma_varint_roundtrip(z as u64, rest);
    assert(unzigzag(z) == v as int);
}

} // verus!
