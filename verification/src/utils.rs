use vstd::prelude::*;

use crate::error::DbError;

verus! {

/// The big-endian 16-bit word made of two bytes.
pub open spec fn be_word(hi: u8, lo: u8) -> int {
    hi as int * 256 + lo as int
}

/// Reads the big-endian 16-bit word at `offset`.
pub fn read_be_word_at(buf: &[u8], offset: usize) -> (word: u16)
    requires
        offset + 2 <= buf@.len(),
    ensures
        word as int == be_word(buf@[offset as int], buf@[offset as int + 1]),
{
    let hi: u16 = buf[offset] as u16;
    let lo: u16 = buf[offset + 1] as u16;
    hi * 256 + lo
}

/// 128 to the power `n`.
pub open spec fn pow128(n: nat) -> nat
    decreases n,
{
    if n == 0 {
        1
    } else {
        128 * pow128((n - 1) as nat)
    }
}

/// The seven payload bits of a varint byte.
pub open spec fn low7(b: u8) -> nat {
    if b < 128 {
        b as nat
    } else {
        (b - 128) as nat
    }
}

/// Decoding of a varint, started at byte `i` with the bits of the bytes
/// before it in `acc`: the number of bytes that the varint takes and its
/// value, or `None` where the input ends before the varint does.
pub open spec fn varint_from(bytes: Seq<u8>, i: nat, acc: nat) -> Option<(nat, nat)>
    decreases 9 - i,
{
    if i >= bytes.len() || i > 8 {
        None
    } else if i == 8 {
        Some((9, acc * 256 + bytes[8] as nat))
    } else if bytes[i as int] < 128 {
        Some((i + 1, acc * 128 + bytes[i as int] as nat))
    } else {
        varint_from(bytes, i + 1, acc * 128 + low7(bytes[i as int]))
    }
}

/// The varint at the start of `bytes`: up to eight bytes carry seven bits
/// each, most significant first, and a set high bit says that another byte
/// follows; a ninth byte carries eight bits.
pub open spec fn varint_decode(bytes: Seq<u8>) -> Option<(nat, nat)> {
    varint_from(bytes, 0, 0)
}

/// The value of the first `k` bytes of a varint, seven bits each.
pub open spec fn prefix_value(bytes: Seq<u8>, k: nat) -> nat
    decreases k,
{
    if k == 0 {
        0
    } else {
        prefix_value(bytes, (k - 1) as nat) * 128 + low7(bytes[k - 1])
    }
}

/// The first powers of 128.
proof fn lemma_pow128_values()
    ensures
        pow128(0) == 1,
        pow128(1) == 0x80,
        pow128(2) == 0x4000,
        pow128(3) == 0x20_0000,
        pow128(4) == 0x1000_0000,
        pow128(5) == 0x8_0000_0000,
        pow128(6) == 0x400_0000_0000,
        pow128(7) == 0x2_0000_0000_0000,
        pow128(8) == 0x100_0000_0000_0000,
{
    reveal_with_fuel(pow128, 10);
}

/// Where the first `k` bytes all ask for another byte, decoding goes on at
/// byte `k` with their value.
proof fn lemma_varint_skip(bytes: Seq<u8>, k: nat)
    requires
        k <= 8,
        k <= bytes.len(),
        forall|j: int| 0 <= j < k ==> bytes[j] >= 128,
    ensures
        varint_decode(bytes) == varint_from(bytes, k, prefix_value(bytes, k)),
    decreases k,
{
    if k > 0 {
        lemma_varint_skip(bytes, (k - 1) as nat);
    }
}

/// A decoded varint takes between one and nine bytes, none beyond the
/// input, and its value fits in 64 bits.
pub proof fn lemma_varint_decode_bounds(bytes: Seq<u8>)
    ensures
        varint_decode(bytes) matches Some((n, v)) ==> 1 <= n <= 9 && n <= bytes.len() && v
            <= u64::MAX,
{
    lemma_varint_from_bounds(bytes, 0, 0);
    lemma_pow128_values();
}

/// The same for a varint that is decoded from byte `i` on.
proof fn lemma_varint_from_bounds(bytes: Seq<u8>, i: nat, acc: nat)
    requires
        i <= 8,
        acc < pow128(i),
    ensures
        varint_from(bytes, i, acc) matches Some((n, v)) ==> i < n <= 9 && n <= bytes.len() && v
            <= u64::MAX,
    decreases 9 - i,
{
    lemma_pow128_values();
    reveal_with_fuel(pow128, 10);
    if i < bytes.len() && i < 8 && bytes[i as int] >= 128 {
        lemma_varint_from_bounds(bytes, i + 1, acc * 128 + low7(bytes[i as int]));
    }
}

/// Decodes the varint at the start of `bytes` into the number of bytes it
/// takes and its value. The input may go on after the varint; where it ends
/// before the varint does, the varint is malformed.
pub fn read_varint(bytes: &[u8]) -> (res: Result<(usize, u64), DbError>)
    ensures
        res matches Ok((n, v)) ==> varint_decode(bytes@) == Some((n as nat, v as nat)) && 1 <= n
            <= 9 && n <= bytes@.len(),
        res matches Err(e) ==> varint_decode(bytes@) is None && e == (DbError::MalformedVarint {
            offset: 0,
        }),
{
    let mut acc: u64 = 0;
    let mut i: usize = 0;
    proof {
        lemma_pow128_values();
        lemma_varint_decode_bounds(bytes@);
    }
    while i < 8
        invariant
            i <= 8,
            acc < pow128(i as nat),
            varint_decode(bytes@) == varint_from(bytes@, i as nat, acc as nat),
            pow128(8) == 0x100_0000_0000_0000,
            varint_decode(bytes@) matches Some((n, v)) ==> 1 <= n <= 9 && n <= bytes@.len() && v
                <= u64::MAX,
        decreases 8 - i,
    {
        if i >= bytes.len() {
            return Err(DbError::MalformedVarint { offset: 0 });
        }
        let b: u8 = bytes[i];
        proof {
            lemma_pow128_monotone(i as nat);
        }
        if b < 128 {
            return Ok((i + 1, acc * 128 + b as u64));
        }
        acc = acc * 128 + (b - 128) as u64;
        i = i + 1;
    }
    if i >= bytes.len() {
        return Err(DbError::MalformedVarint { offset: 0 });
    }
    Ok((9, acc * 256 + bytes[8] as u64))
}

/// One more power of 128 is 128 times as much, and no more than the eighth.
proof fn lemma_pow128_monotone(i: nat)
    requires
        i < 8,
    ensures
        128 * pow128(i) == pow128(i + 1),
        pow128(i + 1) <= pow128(8),
{
    lemma_pow128_values();
    reveal_with_fuel(pow128, 10);
}

/// `n` bytes that carry the low `7 * n` bits of `v`, most significant
/// first, each with the high bit set.
pub open spec fn varint_groups(v: nat, n: nat) -> Seq<u8>
    decreases n,
{
    if n == 0 {
        Seq::<u8>::empty()
    } else {
        varint_groups(v / 128, (n - 1) as nat).push((128 + v % 128) as u8)
    }
}

/// The number of bytes of the shortest varint that holds `v`.
pub open spec fn varint_len(v: u64) -> nat {
    if v < 0x80 {
        1
    } else if v < 0x4000 {
        2
    } else if v < 0x20_0000 {
        3
    } else if v < 0x1000_0000 {
        4
    } else if v < 0x8_0000_0000 {
        5
    } else if v < 0x400_0000_0000 {
        6
    } else if v < 0x2_0000_0000_0000 {
        7
    } else if v < 0x100_0000_0000_0000 {
        8
    } else {
        9
    }
}

/// The shortest varint that holds `v`.
pub open spec fn varint_encode(v: u64) -> Seq<u8> {
    if varint_len(v) == 9 {
        varint_groups(v as nat / 256, 8).push((v % 256) as u8)
    } else {
        varint_groups(v as nat / 128, (varint_len(v) - 1) as nat).push((v % 128) as u8)
    }
}

/// The groups of a number all ask for another byte, and their value is
/// the number.
proof fn lemma_varint_groups(v: nat, n: nat)
    requires
        v < pow128(n),
    ensures
        varint_groups(v, n).len() == n,
        forall|j: int| 0 <= j < n ==> #[trigger] varint_groups(v, n)[j] >= 128,
        forall|tail: Seq<u8>| prefix_value(#[trigger] (varint_groups(v, n) + tail), n) == v,
    decreases n,
{
    if n > 0 {
        let head = varint_groups(v / 128, (n - 1) as nat);
        let last = (128 + v % 128) as u8;
        lemma_varint_groups(v / 128, (n - 1) as nat);
        assert forall|tail: Seq<u8>| prefix_value(#[trigger] (varint_groups(v, n) + tail), n)
            == v by {
            let whole = varint_groups(v, n) + tail;
            let rest = seq![last] + tail;
            assert(whole =~= head + rest);
            assert(whole[n - 1] == last);
        }
    }
}

/// Decoding the encoding of `v` takes all its bytes and gives `v` back.
pub proof fn lemma_varint_round_trip(v: u64)
    ensures
        1 <= varint_encode(v).len() <= 9,
        varint_decode(varint_encode(v)) == Some((varint_encode(v).len(), v as nat)),
{
    lemma_varint_round_trip_before(v, Seq::<u8>::empty());
    assert(varint_encode(v) + Seq::<u8>::empty() =~= varint_encode(v));
}

/// Decoding reads the encoding of `v` off the front of any input that
/// starts with it.
pub proof fn lemma_varint_round_trip_before(v: u64, tail: Seq<u8>)
    ensures
        varint_encode(v).len() == varint_len(v),
        varint_decode(varint_encode(v) + tail) == Some((varint_len(v), v as nat)),
{
    lemma_pow128_values();
    let n = varint_len(v);
    let k = (n - 1) as nat;
    let w: nat = if n == 9 {
        v as nat / 256
    } else {
        v as nat / 128
    };
    let last: u8 = if n == 9 {
        (v % 256) as u8
    } else {
        (v % 128) as u8
    };
    lemma_varint_groups(w, k);
    let groups = varint_groups(w, k);
    let bytes = varint_encode(v) + tail;
    assert(varint_encode(v) =~= groups.push(last));
    assert(bytes =~= groups + (seq![last] + tail));
    assert(prefix_value(bytes, k) == w);
    assert forall|j: int| 0 <= j < k implies bytes[j] >= 128 by {
        assert(bytes[j] == groups[j]);
    }
    lemma_varint_skip(bytes, k);
    assert(bytes[k as int] == last);
}

/// Encodes `v` as the shortest varint that holds it.
pub fn write_varint(v: u64) -> (out: Vec<u8>)
    ensures
        out@ == varint_encode(v),
{
    let n: usize = if v < 0x80 {
        1
    } else if v < 0x4000 {
        2
    } else if v < 0x20_0000 {
        3
    } else if v < 0x1000_0000 {
        4
    } else if v < 0x8_0000_0000 {
        5
    } else if v < 0x400_0000_0000 {
        6
    } else if v < 0x2_0000_0000_0000 {
        7
    } else if v < 0x100_0000_0000_0000 {
        8
    } else {
        9
    };
    let last: u8 = if n == 9 {
        (v % 256) as u8
    } else {
        (v % 128) as u8
    };
    let mut rest: u64 = if n == 9 {
        v / 256
    } else {
        v / 128
    };
    let ghost w: nat = rest as nat;
    let mut reversed: Vec<u8> = Vec::new();
    let mut k: usize = 0;
    while k + 1 < n
        invariant
            k + 1 <= n <= 9,
            reversed@.len() == k,
            varint_groups(w, (n - 1) as nat) =~= varint_groups(rest as nat, (n - 1 - k) as nat)
                + reversed@.reverse(),
        decreases n - k,
    {
        let ghost before = reversed@;
        reversed.push((128 + rest % 128) as u8);
        proof {
            assert(reversed@.reverse() =~= seq![(128 + rest % 128) as u8] + before.reverse());
        }
        rest = rest / 128;
        k = k + 1;
    }
    let mut out: Vec<u8> = Vec::new();
    let mut j: usize = reversed.len();
    while j > 0
        invariant
            j <= reversed@.len(),
            out@ =~= reversed@.reverse().subrange(0, reversed@.len() - j),
        decreases j,
    {
        j = j - 1;
        out.push(reversed[j]);
    }
    proof {
        assert(reversed@.reverse().subrange(0, reversed@.len() as int) =~= reversed@.reverse());
    }
    out.push(last);
    out
}

} // verus!
