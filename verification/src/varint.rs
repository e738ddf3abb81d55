//! The variable-length numbers of packs and deltas.

use crate::outcome::Outcome;
use vstd::prelude::*;

verus! {

/// A number in the size encoding of deltas: seven bits a byte, the lowest first, the top
/// bit set on every byte but the last.
pub open spec fn size_bytes(n: nat) -> Seq<u8>
    decreases n,
{
    if n < 128 {
        seq![n as u8]
    } else {
        seq![(n % 128 + 128) as u8] + size_bytes(n / 128)
    }
}

/// The number that `s` starts with in the size encoding, however large, and the bytes that it
/// takes; `None` when no byte ends it.
pub open spec fn size_prefix(s: Seq<u8>) -> Option<(nat, nat)>
    decreases s.len(),
{
    if s.len() == 0 {
        None
    } else if s[0] < 128 {
        Some((s[0] as nat, 1))
    } else {
        match size_prefix(s.drop_first()) {
            Some((v, n)) => Some(((s[0] - 128) as nat + 128 * v, n + 1)),
            None => None,
        }
    }
}

/// Whether `s` starts with a size of more bytes than a 64-bit number can take.
pub open spec fn size_overlong(s: Seq<u8>) -> bool {
    &&& s.len() > 10
    &&& forall|i: int| 0 <= i < 10 ==> #[trigger] s[i] >= 128
}

/// Reading a size off the front of `s`: the number modulo 2^64, and the bytes it takes.
pub open spec fn read_size(s: Seq<u8>) -> Outcome<(nat, nat)> {
    if size_overlong(s) {
        Outcome::Broken
    } else {
        match size_prefix(s) {
            None => Outcome::Failed("unexpected end of delta size"@),
            Some((v, n)) => Outcome::Done((v % 0x1_0000_0000_0000_0000, n)),
        }
    }
}

/// A number written in the size encoding reads back.
pub proof fn size_reads_back(n: nat, rest: Seq<u8>)
    ensures
        size_prefix(size_bytes(n) + rest) == Some((n, size_bytes(n).len())),
        n < 0x1_0000_0000_0000_0000 ==> read_size(size_bytes(n) + rest) == Outcome::Done(
            (n, size_bytes(n).len()),
        ),
    decreases n,
{
    let s = size_bytes(n) + rest;
    if n >= 128 {
        size_reads_back(n / 128, rest);
        assert(s.drop_first() =~= size_bytes(n / 128) + rest);
    }
    if n < 0x1_0000_0000_0000_0000 {
        reveal_with_fuel(pow128, 12);
        lemma_size_bytes_short(n, 10);
        if size_overlong(s) {
            let k = size_bytes(n).len() - 1;
            assert(s[k] >= 128);
        }
    }
}

/// A number in the size encoding is made of the low seven bits of its bytes, the first of which
/// count least; all of its bytes but the last have the top bit set.
pub proof fn size_is_positional(s: Seq<u8>, i: int)
    requires
        size_prefix(s) matches Some((_, n)) && 0 <= i < n,
    ensures
        size_prefix(s) matches Some((v, n)) && n <= s.len() && v < pow128(n) && v / pow128(i as nat)
            % 128 == s[i] % 128 && (s[i] < 128 <==> i == n - 1),
    decreases s.len(),
{
    reveal_with_fuel(pow128, 2);
    let (v, n) = size_prefix(s)->0;
    if s[0] >= 128 {
        let rest = s.drop_first();
        let (w, m) = size_prefix(rest)->0;
        lemma_size_len(rest);
        if i > 0 {
            size_is_positional(rest, i - 1);
            let p = pow128((i - 1) as nat);
            lemma_pow128_positive((i - 1) as nat);
            assert(pow128(i as nat) == 128 * p);
            vstd::arithmetic::div_mod::lemma_div_denominator(v as int, 128, p as int);
            assert(v / 128 == w);
            assert(rest[i - 1] == s[i]);
        } else {
            size_is_positional(rest, 0);
            assert(v / 1 == v);
        }
    }
}

/// A number takes no more bytes in the size encoding than it needs.
pub proof fn size_is_short(n: nat)
    ensures
        size_bytes(n).len() > 0,
        n < pow128(size_bytes(n).len()),
        size_bytes(n).len() > 1 ==> n >= pow128((size_bytes(n).len() - 1) as nat),
    decreases n,
{
    reveal_with_fuel(pow128, 2);
    if n >= 128 {
        size_is_short(n / 128);
        if size_bytes(n / 128).len() == 1 {
            assert(pow128(1) == 128 * pow128(0));
        }
    }
}

/// A size of at most ten bytes is read modulo 2^64 with the bytes that it takes, one that no byte
/// ends is refused, and a longer one has no meaning.
pub proof fn size_is_read(s: Seq<u8>)
    ensures
        match size_prefix(s) {
            Some((v, n)) => if n <= 10 {
                read_size(s) == Outcome::Done((v % 0x1_0000_0000_0000_0000, n))
            } else {
                read_size(s) is Broken
            },
            None => s.len() <= 10 ==> read_size(s) is Failed,
        },
{
    if let Some((v, n)) = size_prefix(s) {
        lemma_size_len(s);
        if n <= 10 {
            size_is_positional(s, n - 1);
            if size_overlong(s) {
                assert(s[n - 1] >= 128);
            }
        } else {
            assert forall|i: int| 0 <= i < 10 implies #[trigger] s[i] >= 128 by {
                size_is_positional(s, i);
            }
        }
    }
}

proof fn lemma_size_len(s: Seq<u8>)
    ensures
        size_prefix(s) matches Some((_, n)) ==> 0 < n <= s.len(),
    decreases s.len(),
{
    if s.len() > 0 {
        lemma_size_len(s.drop_first());
    }
}

proof fn lemma_pow128_positive(k: nat)
    ensures
        pow128(k) > 0,
    decreases k,
{
    if k > 0 {
        lemma_pow128_positive((k - 1) as nat);
    }
}

/// A number below 128^k takes at most `k` bytes, and only its last byte has the top bit clear.
proof fn lemma_size_bytes_short(n: nat, k: nat)
    requires
        k > 0,
        n < pow128(k),
    ensures
        0 < size_bytes(n).len() <= k,
        size_bytes(n).last() < 128,
    decreases k,
{
    reveal_with_fuel(pow128, 12);
    if n >= 128 {
        lemma_size_bytes_short(n / 128, (k - 1) as nat);
    }
}

/// 128^k.
pub open spec fn pow128(k: nat) -> nat
    decreases k,
{
    if k == 0 {
        1
    } else {
        128 * pow128((k - 1) as nat)
    }
}

/// Appends a number in the size encoding.
pub fn encode_size(out: &mut Vec<u8>, n: u64)
    ensures
        final(out)@ == old(out)@ + size_bytes(n as nat),
{
    let mut rest: u64 = n;
    while rest >= 128
        invariant
            out@ + size_bytes(rest as nat) == old(out)@ + size_bytes(n as nat),
        decreases rest,
    {
        let ghost before = out@;
        out.push((rest % 128 + 128) as u8);
        assert(out@ + size_bytes((rest / 128) as nat) =~= before + size_bytes(rest as nat));
        rest = rest / 128;
    }
    out.push(rest as u8);
    assert(out@ =~= old(out)@ + size_bytes(n as nat));
}

/// Reads a size at `start`: its value and the bytes it takes; `None` when the size is
/// longer than ten bytes. Behind the end there is none.
pub(crate) fn read_delta_size(
    data: &[u8],
    start: usize,
) -> (r: Option<Result<(u64, usize), String>>)
    ensures
        match if start <= data.len() {
            read_size(data@.skip(start as int))
        } else {
            Outcome::Failed("unexpected end of delta size"@)
        } {
            Outcome::Done((v, n)) => {
                &&& r matches Some(Ok((rv, rn)))
                &&& rv == v
                &&& rn == n
                &&& start + n <= data.len()
            },
            Outcome::Failed(m) => r matches Some(Err(e)) && e@ == m,
            Outcome::Broken => r is None,
        },
{
    if start > data.len() {
        return Some(Err("unexpected end of delta size".to_owned()));
    }
    let ghost s = data@.skip(start as int);
    let mut size: u64 = 0;
    let mut scale: u64 = 1;
    let mut count: usize = 0;
    assert(s.skip(0) =~= s);
    loop
        invariant
            s == data@.skip(start as int),
            count <= 9,
            start + count <= data.len(),
            scale == pow128(count as nat),
            size < scale,
            forall|i: int| 0 <= i < count ==> #[trigger] s[i] >= 128,
            size_prefix(s) == (match size_prefix(s.skip(count as int)) {
                Some((v, n)) => Some(((size + scale * v) as nat, n + count as nat)),
                None => None,
            }),
        decreases 10 - count,
    {
        proof {
            reveal_with_fuel(pow128, 12);
        }
        if start + count >= data.len() {
            return Some(Err("unexpected end of delta size".to_owned()));
        }
        let byte: u8 = data[start + count];
        let ghost tail = s.skip(count as int);
        assert(byte == tail[0]);
        assert(tail.drop_first() =~= s.skip(count + 1));
        if byte < 128 {
            let low: u64 = byte as u64;
            assert(size_prefix(s) == Some(((size + scale * low) as nat, (count + 1) as nat)));
            assert(!size_overlong(s)) by {
                assert(s[count as int] == byte);
            }
            if count < 9 {
                assert(size + low * scale < 0x1_0000_0000_0000_0000) by (nonlinear_arith)
                    requires
                        low < 128,
                        size < scale,
                        scale <= 0x100_0000_0000_0000,
                ;
                assert(low * scale == scale * low) by (nonlinear_arith);
                return Some(Ok((size + low * scale, count + 1)));
            } else {
                assert((size + scale * low) % 0x1_0000_0000_0000_0000 == size + (low % 2) * scale)
                    by (nonlinear_arith)
                    requires
                        size < scale,
                        scale == 0x8000_0000_0000_0000,
                ;
                return Some(Ok((size + (low % 2) * scale, count + 1)));
            }
        }
        if count == 9 {
            if start + 10 >= data.len() {
                assert(size_prefix(tail.drop_first()) is None);
                return Some(Err("unexpected end of delta size".to_owned()));
            }
            return None;
        }
        let low: u64 = (byte - 128) as u64;
        assert(size + low * scale < 128 * scale) by (nonlinear_arith)
            requires
                low < 128,
                size < scale,
        ;
        assert(0 <= low * scale) by (nonlinear_arith);
        proof {
            if let Some((v, n)) = size_prefix(s.skip(count + 1)) {
                assert(size + scale * (low + 128 * v) == (size + low * scale) + (scale * 128) * v)
                    by (nonlinear_arith);
            }
        }
        size = size + low * scale;
        scale = scale * 128;
        count += 1;
    }
}

/// The header of a pack entry: three bits of type and the low four bits of the size, then the
/// rest of the size, if any, in the size encoding. The type is taken modulo 16, and its fourth
/// bit falls on that which says that more follows.
pub open spec fn entry_header(type_bits: nat, size: nat) -> Seq<u8> {
    let more = type_bits / 8 % 2 == 1 || size >= 16;
    seq![((type_bits % 8) * 16 + size % 16 + if more {
        128
    } else {
        0int
    }) as u8] + if size >= 16 {
        size_bytes(size / 16)
    } else {
        Seq::empty()
    }
}

/// The bytes that the header at the front of `s` takes: one, and as many more as have the top
/// bit set before them; `None` when no byte ends it.
pub open spec fn header_len(s: Seq<u8>) -> Option<nat>
    decreases s.len(),
{
    if s.len() == 0 {
        None
    } else if s[0] < 128 {
        Some(1)
    } else {
        match header_len(s.drop_first()) {
            Some(n) => Some(n + 1),
            None => None,
        }
    }
}

/// The header of an entry ends with the first byte that has the top bit clear.
pub proof fn header_ends_with_clear_bit(s: Seq<u8>)
    ensures
        header_len(s) matches Some(n) ==> 0 < n <= s.len() && s[n - 1] < 128 && forall|i: int|
            0 <= i < n - 1 ==> #[trigger] s[i] >= 128,
        header_len(s) is None ==> forall|i: int| 0 <= i < s.len() ==> #[trigger] s[i] >= 128,
    decreases s.len(),
{
    if s.len() > 0 && s[0] >= 128 {
        let rest = s.drop_first();
        header_ends_with_clear_bit(rest);
        match header_len(rest) {
            Some(n) => {
                assert(rest[n - 1] == s[n as int]);
                assert forall|i: int| 0 <= i < n implies #[trigger] s[i] >= 128 by {
                    if i > 0 {
                        assert(rest[i - 1] >= 128);
                    }
                }
            },
            None => {
                assert forall|i: int| 0 <= i < s.len() implies #[trigger] s[i] >= 128 by {
                    if i > 0 {
                        assert(rest[i - 1] >= 128);
                    }
                }
            },
        }
    }
}

proof fn lemma_header_len(n: nat, rest: Seq<u8>)
    ensures
        header_len(size_bytes(n) + rest) == Some(size_bytes(n).len()),
    decreases n,
{
    let s = size_bytes(n) + rest;
    if n >= 128 {
        lemma_header_len(n / 128, rest);
        assert(s.drop_first() =~= size_bytes(n / 128) + rest);
    }
}

/// The header of a pack entry reads back: its length is that which was written, and its first
/// byte holds the type.
pub proof fn entry_header_reads_back(type_bits: nat, size: nat, rest: Seq<u8>)
    requires
        type_bits < 8,
    ensures
        header_len(entry_header(type_bits, size) + rest) == Some(entry_header(type_bits, size).len()),
        entry_header(type_bits, size)[0] / 16 % 8 == type_bits,
{
    let s = entry_header(type_bits, size) + rest;
    if size >= 16 {
        lemma_header_len(size / 16, rest);
        assert(s.drop_first() =~= size_bytes(size / 16) + rest);
    }
}

/// The header of a pack entry tells the size of what the entry holds: its low four bits are in the
/// first byte, and the others are those of the number behind it, if the top bit says that there
/// is one.
pub proof fn entry_header_tells_size(type_bits: nat, size: nat, rest: Seq<u8>)
    requires
        type_bits < 8,
    ensures
        ({
            let s = entry_header(type_bits, size) + rest;
            if s[0] >= 128 {
                size_prefix(s.skip(1)) matches Some((high, n)) && s[0] % 16 + 16 * high == size && n
                    + 1 == entry_header(type_bits, size).len()
            } else {
                s[0] % 16 == size && entry_header(type_bits, size).len() == 1
            }
        }),
        (entry_header(type_bits, size) + rest)[0] / 16 % 8 == type_bits,
{
    let s = entry_header(type_bits, size) + rest;
    if size >= 16 {
        size_reads_back(size / 16, rest);
        assert(s.skip(1) =~= size_bytes(size / 16) + rest);
    }
}

/// Appends the header of a pack entry.
pub fn encode_pack_header(out: &mut Vec<u8>, type_bits: u8, size: u64)
    ensures
        final(out)@ == old(out)@ + entry_header(type_bits as nat, size as nat),
{
    let more: u8 = if type_bits / 8 % 2 == 1 || size >= 16 { 128 } else { 0 };
    out.push((type_bits % 8) * 16 + (size % 16) as u8 + more);
    if size >= 16 {
        encode_size(out, size / 16);
    }
    assert(out@ =~= old(out)@ + entry_header(type_bits as nat, size as nat));
}

/// The length of the header at `pos`; `None` when the data ends before it does.
pub(crate) fn read_header_len(data: &[u8], pos: usize) -> (r: Option<usize>)
    requires
        pos <= data.len(),
    ensures
        match header_len(data@.skip(pos as int)) {
            Some(n) => r == Some(n as usize) && 0 < n && pos + n <= data.len(),
            None => r is None,
        },
{
    let mut at: usize = pos;
    loop
        invariant
            pos <= at <= data.len(),
            header_len(data@.skip(pos as int)) == (match header_len(data@.skip(at as int)) {
                Some(n) => Some((n + (at - pos)) as nat),
                None => None,
            }),
        decreases data.len() - at,
    {
        if at >= data.len() {
            return None;
        }
        assert(data@.skip(at as int).drop_first() =~= data@.skip(at + 1));
        if data[at] < 128 {
            return Some(at + 1 - pos);
        }
        at += 1;
    }
}

/// A distance back in a pack, before the bytes `low`: seven bits a byte, the highest first,
/// the top bit set on every byte but the last, where each byte that is followed counts one more
/// than it says.
pub open spec fn distance_bytes_before(n: nat, low: Seq<u8>) -> Seq<u8>
    decreases n,
{
    if n == 0 {
        low
    } else {
        distance_bytes_before(
            ((n - 1) / 128) as nat,
            seq![((n - 1) % 128 + 128) as u8] + low,
        )
    }
}

/// A distance back in a pack.
pub open spec fn distance_bytes(n: nat) -> Seq<u8> {
    distance_bytes_before(n / 128, seq![(n % 128) as u8])
}

/// The distance that `s` goes on with, `high` being what the bytes before it stand for, and
/// the bytes that it takes; `None` when no byte ends it.
pub open spec fn distance_prefix(s: Seq<u8>, high: nat) -> Option<(nat, nat)>
    decreases s.len(),
{
    if s.len() == 0 {
        None
    } else if s[0] < 128 {
        Some(((high + s[0]) as nat, 1))
    } else {
        match distance_prefix(s.drop_first(), 128 * (high + s[0] - 128 + 1) as nat) {
            Some((v, n)) => Some((v, n + 1)),
            None => None,
        }
    }
}

proof fn lemma_distance(n: nat, low: Seq<u8>, rest: Seq<u8>)
    ensures
        distance_bytes_before(n, low).len() >= low.len(),
        distance_prefix(distance_bytes_before(n, low) + rest, 0) == (match distance_prefix(low + rest, 128 * n) {
            Some((v, k)) => Some((v, (k + distance_bytes_before(n, low).len() - low.len()) as nat)),
            None => None,
        }),
    decreases n,
{
    if n > 0 {
        let up = ((n - 1) / 128) as nat;
        let byte = ((n - 1) % 128 + 128) as u8;
        let next = seq![byte] + low;
        lemma_distance(up, next, rest);
        let s = next + rest;
        assert(s.drop_first() =~= low + rest);
        assert(128 * up + byte - 128 + 1 == n);
    } else {
        assert(128 * n == 0);
    }
}

/// A distance reads back.
pub proof fn distance_reads_back(n: nat, rest: Seq<u8>)
    ensures
        distance_prefix(distance_bytes(n) + rest, 0) == Some((n, distance_bytes(n).len())),
        distance_bytes(n).len() > 0,
{
    let low = seq![(n % 128) as u8];
    lemma_distance(n / 128, low, rest);
    assert((low + rest)[0] == low[0]);
}

/// The number that the low seven bits of some bytes make, the first of which count most.
pub open spec fn high_first(s: Seq<u8>) -> nat
    decreases s.len(),
{
    if s.len() == 0 {
        0
    } else {
        128 * high_first(s.drop_last()) + s.last() as nat % 128
    }
}

/// How many distances have fewer than `n` bytes.
pub open spec fn shorter_distances(n: nat) -> nat
    decreases n,
{
    if n <= 1 {
        0
    } else {
        shorter_distances((n - 1) as nat) + pow128((n - 1) as nat)
    }
}

/// The distance that some bytes stand for ends with the first that has the top bit clear. It is
/// the number that their low seven bits make, the first of which count most, and as many more as
/// there are distances of fewer bytes.
pub proof fn distance_is_positional(s: Seq<u8>)
    ensures
        distance_prefix(s, 0) matches Some((v, n)) ==> 0 < n <= s.len() && v == high_first(
            s.take(n as int),
        ) + shorter_distances(n) && s[n - 1] < 128 && forall|i: int|
            0 <= i < n - 1 ==> #[trigger] s[i] >= 128,
{
    lemma_distance_value(s, 0, 0, Seq::empty());
    if let Some((v, n)) = distance_prefix(s, 0) {
        assert(Seq::<u8>::empty() + s.take(n as int) =~= s.take(n as int));
    }
}

proof fn lemma_distance_value(s: Seq<u8>, high: nat, k: nat, before: Seq<u8>)
    requires
        before.len() == k,
        high == 128 * high_first(before) + shorter_distances(k + 1),
    ensures
        distance_prefix(s, high) matches Some((v, n)) ==> 0 < n <= s.len() && v == high_first(
            before + s.take(n as int),
        ) + shorter_distances(k + n) && s[n - 1] < 128 && forall|i: int|
            0 <= i < n - 1 ==> #[trigger] s[i] >= 128,
    decreases s.len(),
{
    if s.len() > 0 {
        let next = before.push(s[0]);
        assert(next.drop_last() =~= before);
        if s[0] < 128 {
            assert(before + s.take(1) =~= next);
        } else {
            let rest = s.drop_first();
            let up = 128 * (high + s[0] - 128 + 1) as nat;
            lemma_shorter(k + 1);
            assert(up == 128 * high_first(next) + shorter_distances(k + 2));
            lemma_distance_value(rest, up, k + 1, next);
            if let Some((v, n)) = distance_prefix(rest, up) {
                assert(next + rest.take(n as int) =~= before + s.take(n as int + 1));
                assert(rest[n - 1] == s[n as int]);
                assert forall|i: int| 0 <= i < n implies #[trigger] s[i] >= 128 by {
                    if i > 0 {
                        assert(rest[i - 1] >= 128);
                    }
                }
            }
        }
    }
}

proof fn lemma_shorter(n: nat)
    requires
        n >= 1,
    ensures
        shorter_distances(n + 1) == 128 * (shorter_distances(n) + 1),
    decreases n,
{
    reveal_with_fuel(pow128, 2);
    if n > 1 {
        lemma_shorter((n - 1) as nat);
    } else {
        reveal_with_fuel(shorter_distances, 3);
    }
}

/// Appends a distance.
pub fn encode_ofs_offset(out: &mut Vec<u8>, offset: u64)
    ensures
        final(out)@ == old(out)@ + distance_bytes(offset as nat),
{
    let mut bytes: Vec<u8> = Vec::new();
    bytes.push((offset % 128) as u8);
    let mut high: u64 = offset / 128;
    assert(bytes@.reverse() =~= seq![(offset as nat % 128) as u8]);
    while high > 0
        invariant
            distance_bytes_before(high as nat, bytes@.reverse()) == distance_bytes(offset as nat),
        decreases high,
    {
        let ghost low = bytes@.reverse();
        high = high - 1;
        bytes.push((high % 128 + 128) as u8);
        assert(bytes@.reverse() =~= seq![(high as nat % 128 + 128) as u8] + low);
        high = high / 128;
    }
    let mut i: usize = bytes.len();
    while i > 0
        invariant
            i <= bytes.len(),
            out@ == old(out)@ + bytes@.skip(i as int).reverse(),
        decreases i,
    {
        i -= 1;
        out.push(bytes[i]);
        assert(out@ =~= old(out)@ + bytes@.skip(i as int).reverse());
    }
    assert(bytes@.skip(0) =~= bytes@);
}

proof fn lemma_distance_step(exact: nat, high: u64, low: u8)
    requires
        high == exact % 0x1_0000_0000_0000_0000,
    ensures
        (high + low + 1) * 128 % 0x1_0000_0000_0000_0000 == (128 * (exact + low + 1)) % 0x1_0000_0000_0000_0000,
        (high + low + 1) * 128 % 0x1_0000_0000_0000_0000 % 128 == 0,
{
    let m: int = 0x1_0000_0000_0000_0000;
    let q = exact / 0x1_0000_0000_0000_0000;
    let x = (high + low + 1) * 128;
    assert(128 * (exact + low + 1) == m * (128 * q) + x) by (nonlinear_arith)
        requires
            exact == m * q + high,
            x == (high + low + 1) * 128,
    ;
    vstd::arithmetic::div_mod::lemma_mod_multiples_vanish(128 * q as int, x, m);
}

/// Reads the distance at `pos`, modulo 2^64, and the number of its bytes; `None` when the data
/// ends before it does.
pub(crate) fn read_distance(data: &[u8], pos: usize) -> (r: Option<(u64, usize)>)
    requires
        pos <= data.len(),
    ensures
        match distance_prefix(data@.skip(pos as int), 0) {
            Some((v, n)) => {
                &&& r matches Some((rv, rn))
                &&& rv == v % 0x1_0000_0000_0000_0000
                &&& rn == n
                &&& 0 < n
                &&& pos + n <= data.len()
            },
            None => r is None,
        },
{
    let mut high: u64 = 0;
    let mut at: usize = pos;
    let ghost mut exact: nat = 0;
    loop
        invariant
            pos <= at <= data.len(),
            high == exact % 0x1_0000_0000_0000_0000,
            high % 128 == 0,
            distance_prefix(data@.skip(pos as int), 0) == (match distance_prefix(data@.skip(at as int), exact) {
                Some((v, n)) => Some((v, (n + (at - pos)) as nat)),
                None => None,
            }),
        decreases data.len() - at,
    {
        if at >= data.len() {
            return None;
        }
        let byte: u8 = data[at];
        assert(data@.skip(at as int).drop_first() =~= data@.skip(at + 1));
        if byte < 128 {
            return Some((high + byte as u64, at + 1 - pos));
        }
        proof {
            lemma_distance_step(exact, high, (byte - 128) as u8);
            exact = 128 * (exact + byte - 128 + 1) as nat;
        }
        high = ((high as u128 + (byte - 128) as u128 + 1) * 128 % 0x1_0000_0000_0000_0000) as u64;
        at += 1;
    }
}

} // verus!
