//! Base64, base58, decimal amounts, and the binary layout of borsh.

use crate::delta::{pow256, push_bytes};
use crate::refs::{update_views, RefUpdate, UpdateView};

use base64::Engine;
use vstd::prelude::*;
use vstd::string::*;
use vstd::utf8::encode_utf8;

verus! {

/// The character of base64 with a value below 64: the capital letters, the small letters, the
/// digits, a plus sign and a slash.
pub open spec fn base64_char(n: int) -> char {
    if n < 26 {
        (65 + n) as u8 as char
    } else if n < 52 {
        (71 + n) as u8 as char
    } else if n < 62 {
        (n - 4) as u8 as char
    } else if n == 62 {
        '+'
    } else {
        '/'
    }
}

/// The text of three bytes, or of the one or two that are left at the end, in four characters.
pub open spec fn base64_group(b: Seq<u8>) -> Seq<char> {
    let (first, second, third) = (
        b[0],
        if b.len() > 1 {
            b[1]
        } else {
            0
        },
        if b.len() > 2 {
            b[2]
        } else {
            0
        },
    );
    seq![
        base64_char(first as int / 4),
        base64_char(first as int % 4 * 16 + second as int / 16),
        if b.len() > 1 {
            base64_char(second as int % 16 * 4 + third as int / 64)
        } else {
            '='
        },
        if b.len() > 2 {
            base64_char(third as int % 64)
        } else {
            '='
        },
    ]
}

/// Bytes in base64 with padding.
pub open spec fn base64_text(b: Seq<u8>) -> Seq<char>
    decreases b.len(),
{
    if b.len() == 0 {
        Seq::empty()
    } else if b.len() <= 3 {
        base64_group(b)
    } else {
        base64_group(b.take(3)) + base64_text(b.skip(3))
    }
}

/// `Engine::encode` of base64's `STANDARD`, the alphabet of RFC 4648 with padding.
#[verifier::external_body]
pub(crate) fn to_base64(bytes: &[u8]) -> (r: String)
    ensures
        r@ == base64_text(bytes@),
{
    base64::engine::general_purpose::STANDARD.encode(bytes)
}

/// `Engine::decode` of base64's `STANDARD`. It asks for canonical padding and takes no trailing
/// bits, so it decodes just the texts that `encode` gives.
#[verifier::external_body]
pub(crate) fn from_base64(text: &str) -> (r: Option<Vec<u8>>)
    ensures
        match r {
            Some(bytes) => text@ == base64_text(bytes@),
            None => forall|bytes: Seq<u8>| text@ != #[trigger] base64_text(bytes),
        },
{
    base64::engine::general_purpose::STANDARD.decode(text).ok()
}

/// The bytes whose base64 a text is; none for a text that is no base64.
pub open spec fn base64_bytes(text: Seq<char>) -> Seq<u8> {
    if exists|bytes: Seq<u8>| text == #[trigger] base64_text(bytes) {
        choose|bytes: Seq<u8>| text == #[trigger] base64_text(bytes)
    } else {
        Seq::empty()
    }
}

proof fn lemma_base64_char(m: int, n: int)
    requires
        0 <= m < 64,
        0 <= n < 64,
    ensures
        base64_char(m) == base64_char(n) ==> m == n,
        base64_char(m) != '=',
{
}

proof fn lemma_base64_group(a: Seq<u8>, b: Seq<u8>)
    requires
        1 <= a.len() <= 3,
        1 <= b.len() <= 3,
        base64_group(a) == base64_group(b),
    ensures
        a == b,
{
    let (x, y) = (base64_group(a), base64_group(b));
    let (a1, a2) = (
        if a.len() > 1 {
            a[1] as int
        } else {
            0
        },
        if a.len() > 2 {
            a[2] as int
        } else {
            0
        },
    );
    let (b1, b2) = (
        if b.len() > 1 {
            b[1] as int
        } else {
            0
        },
        if b.len() > 2 {
            b[2] as int
        } else {
            0
        },
    );
    assert(x[0] == y[0] && x[1] == y[1] && x[2] == y[2] && x[3] == y[3]);
    lemma_base64_char(a[0] as int / 4, b[0] as int / 4);
    lemma_base64_char(a[0] as int % 4 * 16 + a1 / 16, b[0] as int % 4 * 16 + b1 / 16);
    lemma_base64_char(a1 % 16 * 4 + a2 / 64, b1 % 16 * 4 + b2 / 64);
    lemma_base64_char(a2 % 64, b2 % 64);
    assert(a.len() == b.len());
    assert(a[0] == b[0]);
    assert(a1 == b1 && a2 == b2);
    assert(a =~= b);
}

proof fn lemma_base64_len(b: Seq<u8>)
    ensures
        b.len() > 0 ==> base64_text(b).len() >= 4,
        b.len() > 3 ==> base64_text(b).len() > 4,
    decreases b.len(),
{
    if b.len() > 3 {
        lemma_base64_len(b.skip(3));
    }
}

/// Different bytes have different texts in base64.
pub proof fn base64_is_unique(a: Seq<u8>, b: Seq<u8>)
    requires
        base64_text(a) == base64_text(b),
    ensures
        a == b,
    decreases a.len(),
{
    lemma_base64_len(a);
    lemma_base64_len(b);
    if a.len() == 0 || b.len() == 0 {
        assert(a =~= b);
    } else if a.len() <= 3 && b.len() <= 3 {
        lemma_base64_group(a, b);
    } else {
        let (x, y) = (base64_text(a), base64_text(b));
        assert(x.take(4) =~= base64_group(a.take(3)));
        assert(y.take(4) =~= base64_group(b.take(3)));
        assert(x.skip(4) =~= base64_text(a.skip(3)));
        assert(y.skip(4) =~= base64_text(b.skip(3)));
        lemma_base64_group(a.take(3), b.take(3));
        base64_is_unique(a.skip(3), b.skip(3));
        assert(a =~= a.take(3) + a.skip(3));
        assert(b =~= b.take(3) + b.skip(3));
    }
}

/// What is in base64 decodes to what was encoded.
pub proof fn base64_reads_back(bytes: Seq<u8>)
    ensures
        base64_bytes(base64_text(bytes)) == bytes,
{
    base64_is_unique(base64_bytes(base64_text(bytes)), bytes);
}

/// The bytes whose base64 a text is; none for a text that is no base64.
pub(crate) fn decode_base64(text: &str) -> (r: Vec<u8>)
    ensures
        r@ == base64_bytes(text@),
{
    match from_base64(text) {
        Some(bytes) => {
            proof {
                base64_reads_back(bytes@);
            }
            bytes
        },
        None => Vec::new(),
    }
}

/// The characters of base58 by their values.
pub open spec fn base58_alphabet() -> Seq<char> {
    "123456789ABCDEFGHJKLMNPQRSTUVWXYZabcdefghijkmnopqrstuvwxyz"@
}

/// The number that a text stands for in base58.
pub open spec fn base58_number(s: Seq<char>) -> Option<nat>
    decreases s.len(),
{
    if s.len() == 0 {
        Some(0)
    } else if !base58_alphabet().contains(s.last()) {
        None
    } else {
        match base58_number(s.drop_last()) {
            Some(high) => Some(58 * high + base58_alphabet().index_of(s.last()) as nat),
            None => None,
        }
    }
}

/// A number in as few bytes as it takes, the highest first.
pub open spec fn be_bytes(n: nat) -> Seq<u8>
    decreases n,
{
    if n == 0 {
        Seq::empty()
    } else {
        be_bytes(n / 256).push((n % 256) as u8)
    }
}

/// How many characters a text starts with that are `1`.
pub open spec fn leading_ones(s: Seq<char>) -> nat
    decreases s.len(),
{
    if s.len() == 0 || s[0] != '1' {
        0
    } else {
        1 + leading_ones(s.drop_first())
    }
}

/// The bytes that a text stands for in base58: a zero for each `1` that it starts with, and the
/// number; `None` for a text with other characters.
pub open spec fn base58_bytes(s: Seq<char>) -> Option<Seq<u8>> {
    match base58_number(s) {
        Some(n) => Some(Seq::new(leading_ones(s), |i: int| 0u8) + be_bytes(n)),
        None => None,
    }
}

/// What `bs58` says of a text that is no base58.
pub uninterp spec fn base58_fault(s: Seq<char>) -> Seq<char>;

/// `bs58::decode` with its default alphabet, into a vector. The error is that of bs58 as text.
#[verifier::external_body]
pub(crate) fn from_base58(text: &str) -> (r: Result<Vec<u8>, String>)
    ensures
        match base58_bytes(text@) {
            Some(bytes) => r matches Ok(v) && v@ == bytes,
            None => r matches Err(e) && e@ == base58_fault(text@),
        },
{
    bs58::decode(text).into_vec().map_err(|e| e.to_string())
}

/// The number that a run of decimal digits stands for.
pub open spec fn decimal_number(s: Seq<char>) -> Option<nat>
    decreases s.len(),
{
    if s.len() == 0 {
        Some(0)
    } else if '0' <= s.last() <= '9' {
        match decimal_number(s.drop_last()) {
            Some(high) => Some(10 * high + (s.last() as nat - '0' as nat) as nat),
            None => None,
        }
    } else {
        None
    }
}

/// The amount that a text stands for: decimal digits, behind a plus sign or not, that fit in 128
/// bits.
pub open spec fn amount_of(s: Seq<char>) -> Option<u128> {
    let digits = if s.len() > 0 && s[0] == '+' {
        s.drop_first()
    } else {
        s
    };
    match decimal_number(digits) {
        Some(n) => if digits.len() > 0 && n <= u128::MAX {
            Some(n as u128)
        } else {
            None
        },
        None => None,
    }
}

/// What std says of a text that is no amount.
pub uninterp spec fn amount_fault(s: Seq<char>) -> Seq<char>;

/// `str::parse` of std for `u128`. The error is that of std as text.
#[verifier::external_body]
pub(crate) fn parse_amount(text: &str) -> (r: Result<u128, String>)
    ensures
        match amount_of(text@) {
            Some(n) => r == Ok::<u128, String>(n),
            None => r matches Err(e) && e@ == amount_fault(text@),
        },
{
    text.parse::<u128>().map_err(|e| e.to_string())
}

/// The low `width` bytes of a number, the lowest first.
pub open spec fn le_bytes(n: nat, width: nat) -> Seq<u8>
    decreases width,
{
    if width == 0 {
        Seq::empty()
    } else {
        seq![(n % 256) as u8] + le_bytes(n / 256, (width - 1) as nat)
    }
}

/// The number that some bytes stand for, the lowest first.
pub open spec fn le_value(s: Seq<u8>) -> nat
    decreases s.len(),
{
    if s.len() == 0 {
        0
    } else {
        s[0] as nat + 256 * le_value(s.drop_first())
    }
}

/// A number that fits is what its bytes stand for, and there are as many of these as were asked
/// for.
pub proof fn le_bytes_read_back(n: nat, width: nat)
    requires
        n < pow256(width),
    ensures
        le_bytes(n, width).len() == width,
        le_value(le_bytes(n, width)) == n,
    decreases width,
{
    if width > 0 {
        let w = (width - 1) as nat;
        assert(n / 256 < pow256(w)) by {
            assert(pow256(width) == 256 * pow256(w));
        }
        le_bytes_read_back(n / 256, w);
        assert(le_bytes(n, width).drop_first() =~= le_bytes(n / 256, w));
    }
}

/// Every number of 32, 64 or 128 bits fits in the bytes that it is written in.
pub(crate) proof fn lemma_widths(a: nat, b: u64, c: u128)
    ensures
        a <= u32::MAX ==> a < pow256(4),
        (b as nat) < pow256(8),
        (c as nat) < pow256(16),
{
    reveal_with_fuel(pow256, 17);
}

/// Bytes with their number in front, in four bytes.
pub open spec fn counted(bytes: Seq<u8>) -> Seq<u8> {
    le_bytes(bytes.len(), 4) + bytes
}

/// Appends the low `width` bytes of a number.
pub(crate) fn push_le(out: &mut Vec<u8>, n: u128, width: u8)
    ensures
        final(out)@ == old(out)@ + le_bytes(n as nat, width as nat),
    decreases width,
{
    if width > 0 {
        out.push((n % 256) as u8);
        push_le(out, n / 256, width - 1);
        assert(out@ =~= old(out)@ + le_bytes(n as nat, width as nat));
    } else {
        assert(out@ =~= old(out)@ + le_bytes(n as nat, width as nat));
    }
}

/// Appends bytes with their number in front.
pub(crate) fn push_counted(out: &mut Vec<u8>, bytes: &[u8])
    ensures
        final(out)@ == old(out)@ + counted(bytes@),
{
    push_le(out, bytes.len() as u128, 4);
    push_bytes(out, bytes);
    assert(out@ =~= old(out)@ + counted(bytes@));
}

/// A text as borsh writes it: its length in bytes, and these.
pub fn borsh_write_string(buf: &mut Vec<u8>, s: &str)
    ensures
        final(buf)@ == old(buf)@ + counted(encode_utf8(s@)),
{
    push_counted(buf, s.as_bytes());
}

/// An update as borsh writes it.
pub open spec fn update_bytes(u: UpdateView) -> Seq<u8> {
    counted(encode_utf8(u.name)) + (match u.old {
        None => seq![0u8],
        Some(old) => seq![1u8] + counted(encode_utf8(old)),
    }) + counted(encode_utf8(u.new))
}

/// Some updates as borsh writes them, without their number.
pub open spec fn updates_bytes(updates: Seq<UpdateView>) -> Seq<u8>
    decreases updates.len(),
{
    if updates.len() == 0 {
        Seq::empty()
    } else {
        updates_bytes(updates.drop_last()) + update_bytes(updates.last())
    }
}

/// The arguments of a push as borsh writes them: the pack, then the updates.
pub open spec fn push_args(pack: Seq<u8>, updates: Seq<UpdateView>) -> Seq<u8> {
    counted(pack) + le_bytes(updates.len(), 4) + updates_bytes(updates)
}

/// Whether the lengths in an update can be written in 32 bits.
pub open spec fn fits(u: UpdateView) -> bool {
    &&& encode_utf8(u.name).len() <= u32::MAX
    &&& encode_utf8(u.new).len() <= u32::MAX
    &&& u.old matches Some(old) ==> encode_utf8(old).len() <= u32::MAX
}

/// A row of an update's fields.
pub open spec fn row_view(row: (String, Option<String>, String)) -> UpdateView {
    UpdateView { name: row.0@, old: crate::refs::text_of(row.1), new: row.2@ }
}

/// `borsh::to_vec` of a pack and the fields of updates: each field in turn, a text or a list
/// with its length in four bytes in front, an option with a byte that says whether it is there.
/// A length that takes more is an error, and is left out.
#[verifier::external_body]
fn borsh_push(pack: &[u8], rows: &Vec<(String, Option<String>, String)>) -> (r: Vec<u8>)
    requires
        pack@.len() <= u32::MAX,
        rows@.len() <= u32::MAX,
        forall|i: int| 0 <= i < rows@.len() ==> fits(row_view(#[trigger] rows@[i])),
    ensures
        r@ == push_args(
            pack@,
            rows@.map_values(|row: (String, Option<String>, String)| row_view(row)),
        ),
{
    borsh::to_vec(&(pack, rows)).unwrap()
}

/// The arguments of a push for the contract. Lengths are written in 32 bits.
pub fn encode_push_args(pack_data: &[u8], ref_updates: &Vec<RefUpdate>) -> (r: Vec<u8>)
    requires
        pack_data@.len() <= u32::MAX,
        ref_updates@.len() <= u32::MAX,
        forall|i: int| 0 <= i < ref_updates@.len() ==> fits((#[trigger] ref_updates@[i])@),
    ensures
        r@ == push_args(pack_data@, update_views(ref_updates@)),
{
    let mut rows: Vec<(String, Option<String>, String)> = Vec::new();
    let mut i: usize = 0;
    while i < ref_updates.len()
        invariant
            i <= ref_updates.len(),
            rows@.len() == i,
            forall|k: int| 0 <= k < i ==> row_view(#[trigger] rows@[k]) == ref_updates@[k]@,
        decreases ref_updates.len() - i,
    {
        let u = ref_updates[i].clone();
        rows.push((u.name, u.old_sha, u.new_sha));
        i += 1;
    }
    assert(rows@.map_values(|row: (String, Option<String>, String)| row_view(row)) =~= update_views(
        ref_updates@,
    ));
    borsh_push(pack_data, &rows)
}

proof fn lemma_le_bytes(m: nat, n: nat, width: nat, a: Seq<u8>, b: Seq<u8>)
    requires
        le_bytes(m, width) + a == le_bytes(n, width) + b,
        width == 4 && m <= u32::MAX && n <= u32::MAX || width == 3 && m < 0x100_0000 && n < 0x100_0000
            || width == 2 && m < 0x1_0000 && n < 0x1_0000 || width == 1 && m < 0x100 && n < 0x100
            || width == 0 && m == 0 && n == 0,
    ensures
        m == n,
        a == b,
    decreases width,
{
    let (x, y) = (le_bytes(m, width) + a, le_bytes(n, width) + b);
    if width == 0 {
        assert(x =~= a);
        assert(y =~= b);
    } else {
        let w = (width - 1) as nat;
        assert(x[0] == (m % 256) as u8);
        assert(y[0] == (n % 256) as u8);
        assert(x.drop_first() =~= le_bytes(m / 256, w) + a);
        assert(y.drop_first() =~= le_bytes(n / 256, w) + b);
        lemma_le_bytes(m / 256, n / 256, w, a, b);
    }
}

/// The bytes of a number are as many as were asked for.
pub(crate) proof fn lemma_le_len(n: nat, width: nat)
    ensures
        le_bytes(n, width).len() == width,
    decreases width,
{
    if width > 0 {
        lemma_le_len(n / 256, (width - 1) as nat);
    }
}

/// Numbers of 32 bits differ in their bytes.
pub proof fn le_bytes_are_unique(m: nat, n: nat)
    requires
        m <= u32::MAX,
        n <= u32::MAX,
        le_bytes(m, 4) == le_bytes(n, 4),
    ensures
        m == n,
{
    lemma_le_bytes(m, n, 4, Seq::empty(), Seq::empty());
}

/// Reads the number of 32 bits at `pos`.
pub(crate) fn read_le32(bytes: &[u8], pos: usize) -> (r: u32)
    requires
        pos + 4 <= bytes.len(),
    ensures
        le_bytes(r as nat, 4) == bytes@.subrange(pos as int, pos + 4),
{
    let (a, b, c, d) = (bytes[pos], bytes[pos + 1], bytes[pos + 2], bytes[pos + 3]);
    let r: u32 = a as u32 + b as u32 * 0x100 + c as u32 * 0x1_0000 + d as u32 * 0x100_0000;
    assert(le_bytes(r as nat, 4) =~= seq![a, b, c, d]) by {
        reveal_with_fuel(le_bytes, 5);
        assert(r as nat / 256 == b + c * 0x100 + d * 0x1_0000);
        assert(r as nat / 256 / 256 == c + d * 0x100);
        assert(r as nat / 256 / 256 / 256 == d as nat);
    }
    assert(bytes@.subrange(pos as int, pos + 4) =~= seq![a, b, c, d]);
    r
}

proof fn lemma_counted(p: Seq<u8>, q: Seq<u8>, a: Seq<u8>, b: Seq<u8>)
    requires
        p.len() <= u32::MAX,
        q.len() <= u32::MAX,
        counted(p) + a == counted(q) + b,
    ensures
        p == q,
        a == b,
{
    assert(counted(p) + a =~= le_bytes(p.len(), 4) + (p + a));
    assert(counted(q) + b =~= le_bytes(q.len(), 4) + (q + b));
    lemma_le_bytes(p.len(), q.len(), 4, p + a, q + b);
    let n = p.len() as int;
    assert((p + a).take(n) =~= p);
    assert((q + b).take(n) =~= q);
    assert((p + a).skip(n) =~= a);
    assert((q + b).skip(n) =~= b);
}

proof fn lemma_text(p: Seq<char>, q: Seq<char>)
    requires
        encode_utf8(p) == encode_utf8(q),
    ensures
        p == q,
{
    broadcast use vstd::utf8::encode_utf8_decode_utf8;

    assert(p == vstd::utf8::decode_utf8(encode_utf8(p)));
    assert(q == vstd::utf8::decode_utf8(encode_utf8(q)));
}

spec fn old_bytes(old: Option<Seq<char>>) -> Seq<u8> {
    match old {
        None => seq![0u8],
        Some(t) => seq![1u8] + counted(encode_utf8(t)),
    }
}

proof fn lemma_old(p: Option<Seq<char>>, q: Option<Seq<char>>, a: Seq<u8>, b: Seq<u8>)
    requires
        p matches Some(t) ==> encode_utf8(t).len() <= u32::MAX,
        q matches Some(t) ==> encode_utf8(t).len() <= u32::MAX,
        old_bytes(p) + a == old_bytes(q) + b,
    ensures
        p == q,
        a == b,
{
    let (x, y) = (old_bytes(p) + a, old_bytes(q) + b);
    assert(x[0] == old_bytes(p)[0]);
    assert(y[0] == old_bytes(q)[0]);
    match (p, q) {
        (Some(s), Some(t)) => {
            assert(x.drop_first() =~= counted(encode_utf8(s)) + a);
            assert(y.drop_first() =~= counted(encode_utf8(t)) + b);
            lemma_counted(encode_utf8(s), encode_utf8(t), a, b);
            lemma_text(s, t);
        },
        _ => {
            assert(x.drop_first() =~= a);
            assert(y.drop_first() =~= b);
        },
    }
}

proof fn lemma_update_parts(u: UpdateView, a: Seq<u8>)
    ensures
        update_bytes(u) + a == counted(encode_utf8(u.name)) + (old_bytes(u.old) + (counted(
            encode_utf8(u.new),
        ) + a)),
{
    let (name, old, new) = (counted(encode_utf8(u.name)), old_bytes(u.old), counted(encode_utf8(u.new)));
    assert(update_bytes(u) == name + old + new);
    assert(name + old + new + a =~= name + (old + (new + a)));
}

proof fn lemma_update(u: UpdateView, v: UpdateView, a: Seq<u8>, b: Seq<u8>)
    requires
        fits(u),
        fits(v),
        update_bytes(u) + a == update_bytes(v) + b,
    ensures
        u == v,
        a == b,
{
    let (x, y) = (encode_utf8(u.new), encode_utf8(v.new));
    lemma_update_parts(u, a);
    lemma_update_parts(v, b);
    lemma_counted(
        encode_utf8(u.name),
        encode_utf8(v.name),
        old_bytes(u.old) + (counted(x) + a),
        old_bytes(v.old) + (counted(y) + b),
    );
    lemma_text(u.name, v.name);
    lemma_old(u.old, v.old, counted(x) + a, counted(y) + b);
    lemma_counted(x, y, a, b);
    lemma_text(u.new, v.new);
}

proof fn lemma_updates_front(updates: Seq<UpdateView>)
    requires
        updates.len() > 0,
    ensures
        updates_bytes(updates) == update_bytes(updates[0]) + updates_bytes(updates.drop_first()),
    decreases updates.len(),
{
    if updates.len() == 1 {
        assert(updates.drop_last() =~= Seq::empty());
        assert(updates.drop_first() =~= Seq::empty());
        assert(updates_bytes(updates) =~= update_bytes(updates[0]) + updates_bytes(
            updates.drop_first(),
        ));
    } else {
        lemma_updates_front(updates.drop_last());
        assert(updates.drop_last().drop_first() =~= updates.drop_first().drop_last());
        assert(updates_bytes(updates) =~= update_bytes(updates[0]) + updates_bytes(
            updates.drop_first(),
        ));
    }
}

proof fn lemma_updates(u: Seq<UpdateView>, v: Seq<UpdateView>)
    requires
        u.len() == v.len(),
        forall|i: int| 0 <= i < u.len() ==> fits(#[trigger] u[i]),
        forall|i: int| 0 <= i < v.len() ==> fits(#[trigger] v[i]),
        updates_bytes(u) == updates_bytes(v),
    ensures
        u == v,
    decreases u.len(),
{
    if u.len() == 0 {
        assert(u =~= v);
    } else {
        let (a, b) = (u.drop_first(), v.drop_first());
        lemma_updates_front(u);
        lemma_updates_front(v);
        lemma_update(u[0], v[0], updates_bytes(a), updates_bytes(b));
        lemma_updates(a, b);
        assert(u =~= seq![u[0]] + a);
        assert(v =~= seq![v[0]] + b);
    }
}

/// The contract gets what the client sent: the arguments of different pushes differ.
pub proof fn push_args_are_unique(p: Seq<u8>, u: Seq<UpdateView>, q: Seq<u8>, v: Seq<UpdateView>)
    requires
        p.len() <= u32::MAX,
        q.len() <= u32::MAX,
        u.len() <= u32::MAX,
        v.len() <= u32::MAX,
        forall|i: int| 0 <= i < u.len() ==> fits(#[trigger] u[i]),
        forall|i: int| 0 <= i < v.len() ==> fits(#[trigger] v[i]),
        push_args(p, u) == push_args(q, v),
    ensures
        p == q,
        u == v,
{
    let (a, b) = (
        le_bytes(u.len(), 4) + updates_bytes(u),
        le_bytes(v.len(), 4) + updates_bytes(v),
    );
    assert(push_args(p, u) =~= counted(p) + a);
    assert(push_args(q, v) =~= counted(q) + b);
    lemma_counted(p, q, a, b);
    lemma_le_bytes(u.len(), v.len(), 4, updates_bytes(u), updates_bytes(v));
    lemma_updates(u, v);
}

} // verus!
