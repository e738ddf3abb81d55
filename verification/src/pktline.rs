//! The framing of lines in the smart HTTP protocol.

use crate::delta::push_bytes;
use crate::object::copy_bytes;
use crate::text::{hex_char, hex_digit_value, hex_value};
use vstd::prelude::*;

verus! {

/// A number in lower-case hexadecimal, with leading zeros up to `width` digits.
pub open spec fn hex_number(n: nat, width: nat) -> Seq<u8>
    decreases n + width,
{
    if n < 16 && width <= 1 {
        seq![hex_char(n) as u8]
    } else {
        hex_number(
            n / 16,
            if width > 0 {
                (width - 1) as nat
            } else {
                0
            },
        ).push(hex_char(n % 16) as u8)
    }
}

/// A line with its length in front, which counts its own four digits.
pub open spec fn framed(line: Seq<u8>) -> Seq<u8> {
    hex_number(line.len() + 4, 4) + line
}

/// Some lines one after the other.
pub open spec fn framed_lines(lines: Seq<Seq<u8>>) -> Seq<u8>
    decreases lines.len(),
{
    if lines.len() == 0 {
        Seq::empty()
    } else {
        framed(lines[0]) + framed_lines(lines.drop_first())
    }
}

/// The packet that ends a run of lines.
pub open spec fn flush_bytes() -> Seq<u8> {
    seq![48u8, 48, 48, 48]
}

/// The number that a run of hexadecimal digits stands for.
pub open spec fn hex_read(s: Seq<u8>) -> Option<nat>
    decreases s.len(),
{
    if s.len() == 0 {
        Some(0)
    } else {
        match (hex_read(s.drop_last()), hex_value(s.last())) {
            (Some(high), Some(low)) => Some(16 * high + low),
            _ => None,
        }
    }
}

/// The length that four hexadecimal digits announce; 0 for anything else.
pub open spec fn announced(s: Seq<u8>) -> nat {
    match hex_read(s) {
        Some(n) => n,
        None => 0,
    }
}

/// The lines at the front of some data, up to a flush packet, which is taken too, or up to
/// what is not a line; and what is left.
pub open spec fn read_lines(data: Seq<u8>) -> (Seq<Seq<u8>>, Seq<u8>)
    decreases data.len(),
{
    if data.len() < 4 {
        (Seq::empty(), data)
    } else {
        let n = announced(data.take(4));
        if n == 0 {
            (Seq::empty(), data.skip(4))
        } else if n < 4 || n > data.len() {
            (Seq::empty(), data)
        } else {
            let (lines, rest) = read_lines(data.skip(n as int));
            (seq![data.subrange(4, n as int)] + lines, rest)
        }
    }
}

/// The bytes of some lines.
pub open spec fn line_views(lines: Seq<Vec<u8>>) -> Seq<Seq<u8>> {
    lines.map_values(|line: Vec<u8>| line@)
}

proof fn lemma_hex_number(n: nat, width: nat)
    requires
        width >= 1,
    ensures
        hex_read(hex_number(n, width)) == Some(n),
        hex_number(n, width).len() >= width,
        hex_number(n, width)[0] != 43,
    decreases n + width,
{
    if n < 16 && width <= 1 {
        let s = hex_number(n, width);
        assert(s.drop_last() =~= Seq::empty());
        assert(hex_read(s.drop_last()) == Some(0nat));
    } else {
        let w: nat = if width > 1 {
            (width - 1) as nat
        } else {
            1
        };
        let s = hex_number(n, width);
        if width > 1 {
            lemma_hex_number(n / 16, w);
        } else {
            assert(hex_number(n / 16, 0) == hex_number(n / 16, 1)) by {
                lemma_no_padding(n / 16);
            }
            lemma_hex_number(n / 16, 1);
        }
        assert(s.drop_last() =~= hex_number(n / 16, (width - 1) as nat));
    }
}

proof fn lemma_no_padding(n: nat)
    ensures
        hex_number(n, 0) == hex_number(n, 1),
{
}

proof fn lemma_short_number(n: nat, width: nat, bound: nat)
    requires
        n < bound,
        width == 4 && bound == 0x1_0000 || width == 3 && bound == 0x1000 || width == 2 && bound == 0x100
            || width == 1 && bound == 0x10,
    ensures
        hex_number(n, width).len() == width,
    decreases width,
{
    if width > 1 {
        lemma_short_number(n / 16, (width - 1) as nat, bound / 16);
    }
}

/// What is framed reads back: the lines, and whatever follows the flush packet.
pub proof fn framed_lines_read_back(lines: Seq<Seq<u8>>, rest: Seq<u8>)
    requires
        forall|i: int| 0 <= i < lines.len() ==> (#[trigger] lines[i]).len() + 4 < 0x1_0000,
    ensures
        read_lines(framed_lines(lines) + flush_bytes() + rest) == (lines, rest),
    decreases lines.len(),
{
    let data = framed_lines(lines) + flush_bytes() + rest;
    if lines.len() == 0 {
        assert(data.take(4) =~= flush_bytes());
        assert(hex_read(flush_bytes()) == Some(0nat)) by {
            reveal_with_fuel(hex_read, 5);
        }
        assert(data.skip(4) =~= rest);
        assert(lines =~= Seq::empty());
    } else {
        let line = lines[0];
        let tail = lines.drop_first();
        let n = line.len() + 4;
        let prefix = hex_number(n, 4);
        lemma_hex_number(n, 4);
        lemma_short_number(n, 4, 0x1_0000);
        assert forall|i: int| 0 <= i < tail.len() implies (#[trigger] tail[i]).len() + 4 < 0x1_0000 by {
            assert(tail[i] == lines[i + 1]);
        }
        framed_lines_read_back(tail, rest);
        assert(data.take(4) =~= prefix);
        assert(data.subrange(4, n as int) =~= line);
        assert(data.skip(n as int) =~= framed_lines(tail) + flush_bytes() + rest);
        assert(seq![line] + tail =~= lines);
    }
}

/// Four digits announce the number that they are in hexadecimal; anything else announces nothing.
pub proof fn four_digits_announce(a: u8, b: u8, c: u8, d: u8)
    ensures
        announced(seq![a, b, c, d]) == (match (hex_value(a), hex_value(b), hex_value(c), hex_value(d)) {
            (Some(w), Some(x), Some(y), Some(z)) => 0x1000 * w + 0x100 * x + 0x10 * y + z,
            _ => 0,
        }),
{
    let s = seq![a, b, c, d];
    assert(s.drop_last() =~= seq![a, b, c]);
    assert(seq![a, b, c].drop_last() =~= seq![a, b]);
    assert(seq![a, b].drop_last() =~= seq![a]);
    assert(seq![a].drop_last() =~= Seq::empty());
    assert(hex_read(Seq::empty()) == Some(0nat));
    assert(hex_read(seq![a]) == match hex_value(a) {
        Some(w) => Some(w),
        None => None,
    });
    reveal_with_fuel(hex_read, 5);
}

/// Lines are read up to what is no line, which is left: fewer than four bytes, or a length that
/// is less than its own four digits or more than there is.
pub proof fn lines_are_read_up_to_what_is_none(lines: Seq<Seq<u8>>, rest: Seq<u8>)
    requires
        forall|i: int| 0 <= i < lines.len() ==> (#[trigger] lines[i]).len() + 4 < 0x1_0000,
        rest.len() < 4 || 0 < announced(rest.take(4)) < 4 || announced(rest.take(4)) > rest.len(),
    ensures
        read_lines(framed_lines(lines) + rest) == (lines, rest),
    decreases lines.len(),
{
    let data = framed_lines(lines) + rest;
    if lines.len() == 0 {
        assert(data =~= rest);
        assert(lines =~= Seq::empty());
    } else {
        let line = lines[0];
        let tail = lines.drop_first();
        let n = line.len() + 4;
        lemma_hex_number(n, 4);
        lemma_short_number(n, 4, 0x1_0000);
        assert forall|i: int| 0 <= i < tail.len() implies (#[trigger] tail[i]).len() + 4 < 0x1_0000 by {
            assert(tail[i] == lines[i + 1]);
        }
        lines_are_read_up_to_what_is_none(tail, rest);
        assert(data.take(4) =~= hex_number(n, 4));
        assert(data.subrange(4, n as int) =~= line);
        assert(data.skip(n as int) =~= framed_lines(tail) + rest);
        assert(seq![line] + tail =~= lines);
    }
}

/// A framed line is four digits that tell its length and their own, and the line.
pub proof fn frame_tells_length(line: Seq<u8>)
    requires
        line.len() + 4 < 0x1_0000,
    ensures
        framed(line).len() == line.len() + 4,
        announced(framed(line).take(4)) == line.len() + 4,
        framed(line).skip(4) == line,
{
    lemma_hex_number(line.len() + 4, 4);
    lemma_short_number(line.len() + 4, 4, 0x1_0000);
    assert(framed(line).take(4) =~= hex_number(line.len() + 4, 4));
    assert(framed(line).skip(4) =~= line);
}

/// Appends a number in hexadecimal.
fn push_hex(out: &mut Vec<u8>, n: u128, width: u8)
    ensures
        final(out)@ == old(out)@ + hex_number(n as nat, width as nat),
    decreases n + width,
{
    if !(n < 16 && width <= 1) {
        push_hex(out, n / 16, if width > 0 { width - 1 } else { 0 });
    }
    let digit: u8 = (n % 16) as u8;
    out.push(if digit < 10 { 48 + digit } else { 87 + digit });
    assert(out@ =~= old(out)@ + hex_number(n as nat, width as nat));
}

/// Frames one line.
pub fn encode(data: &[u8]) -> (r: Vec<u8>)
    ensures
        r@ == framed(data@),
{
    let mut out: Vec<u8> = Vec::new();
    push_hex(&mut out, data.len() as u128 + 4, 4);
    push_bytes(&mut out, data);
    assert(out@ =~= framed(data@));
    out
}

/// The flush packet.
pub fn flush() -> (r: Vec<u8>)
    ensures
        r@ == flush_bytes(),
{
    let r: Vec<u8> = vec![48, 48, 48, 48];
    assert(r@ =~= flush_bytes());
    r
}

/// The length that the four bytes at `pos` announce.
fn read_announced(data: &[u8], pos: usize) -> (r: usize)
    requires
        pos + 4 <= data.len(),
    ensures
        r == announced(data@.subrange(pos as int, pos + 4)),
{
    let ghost digits = data@.subrange(pos as int, pos + 4);
    let mut n: usize = 0;
    let mut i: usize = pos;
    let ghost mut bound: nat = 1;
    while i < pos + 4
        invariant
            pos <= i <= pos + 4 <= data.len(),
            digits == data@.subrange(pos as int, pos + 4),
            hex_read(digits.take(i - pos)) == Some(n as nat),
            n < bound,
            bound == (if i == pos {
                1int
            } else if i == pos + 1 {
                0x10
            } else if i == pos + 2 {
                0x100
            } else if i == pos + 3 {
                0x1000
            } else {
                0x1_0000
            }),
        decreases pos + 4 - i,
    {
        let ghost head = digits.take(i - pos);
        let ghost next = digits.take(i + 1 - pos);
        assert(next.drop_last() =~= head);
        assert(next.last() == data@[i as int]);
        match hex_digit_value(data[i]) {
            Some(v) => {
                n = 16 * n + v as usize;
                proof {
                    bound = 16 * bound;
                }
            },
            None => {
                assert(hex_read(next) is None);
                proof {
                    lemma_hex_prefix(digits, i + 1 - pos);
                }
                return 0;
            },
        }
        i += 1;
    }
    assert(digits.take(i - pos) =~= digits);
    n
}

/// A run that starts with what is no number is none.
proof fn lemma_hex_prefix(s: Seq<u8>, n: int)
    requires
        0 <= n <= s.len(),
        hex_read(s.take(n)) is None,
    ensures
        hex_read(s) is None,
    decreases s.len() - n,
{
    if n < s.len() {
        assert(s.take(n + 1).drop_last() =~= s.take(n));
        lemma_hex_prefix(s, n + 1);
    } else {
        assert(s.take(n) =~= s);
    }
}

/// Reads lines until a flush packet, and gives what is left.
pub fn read_until_flush(data: &[u8]) -> (r: (Vec<Vec<u8>>, &[u8]))
    ensures
        (line_views(r.0@), r.1@) == read_lines(data@),
{
    let mut lines: Vec<Vec<u8>> = Vec::new();
    let mut pos: usize = 0;
    assert(line_views(lines@) + read_lines(data@).0 =~= read_lines(data@).0);
    assert(data@.skip(0) =~= data@);
    while data.len() - pos >= 4
        invariant_except_break
            pos <= data.len(),
            read_lines(data@) == (
                line_views(lines@) + read_lines(data@.skip(pos as int)).0,
                read_lines(data@.skip(pos as int)).1,
            ),
        ensures
            pos <= data.len(),
            read_lines(data@) == (line_views(lines@), data@.skip(pos as int)),
        decreases data.len() - pos,
    {
        let ghost here = data@.skip(pos as int);
        let ghost before = line_views(lines@);
        assert(here.take(4) =~= data@.subrange(pos as int, pos + 4));
        let n: usize = read_announced(data, pos);
        if n == 0 {
            assert(here.skip(4) =~= data@.skip(pos + 4));
            assert(before + Seq::empty() =~= before);
            pos += 4;
            break;
        }
        if n < 4 || n > data.len() - pos {
            assert(before + Seq::empty() =~= before);
            break;
        }
        let line = copy_bytes(&data[pos + 4..pos + n]);
        assert(line@ =~= here.subrange(4, n as int));
        assert(here.skip(n as int) =~= data@.skip(pos + n));
        lines.push(line);
        assert(line_views(lines@) =~= before.push(line@));
        pos += n;
        assert(before + (seq![line@] + read_lines(data@.skip(pos as int)).0) =~= line_views(lines@)
            + read_lines(data@.skip(pos as int)).0);
    }
    let rest = &data[pos..data.len()];
    assert(rest@ =~= data@.skip(pos as int));
    (lines, rest)
}

} // verus!
