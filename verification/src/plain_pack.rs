//! Packs whose objects are stored whole.

use crate::delta::push_bytes;
use crate::digest::{sha1_digest, sha1_of};
use crate::object::{
    all_known, object_views, type_bits, type_to_bits, DeltaView, ObjectView, PackObject,
    PackView, ParseResult, UnresolvedDelta,
};
use crate::outcome::Outcome;
use crate::packfile::{
    be32, check_header, header_refusal, named_deltas, numbered, pack_magic, parse_outcome,
    read_be32, read_body, read_body_at, read_entry, read_head, read_head_at, resolve,
    resolve_outcome, resolved_objects, scan, EntryHead, EntryView, Head,
};
use crate::packing::{be32_bytes, lemma_be32_reads_back, lemma_whole_head, push_pack_start};
use crate::text::{decimal, hex_text, to_hex};
use crate::varint::{encode_pack_header, entry_header};
use crate::zlib::{deflated, inflated, reads_back, zlib_compress};
use vstd::prelude::*;
use vstd::string::*;

verus! {

/// What `count` entries from `pos` on add to what was found before them, where deltas against
/// entries of the pack itself are refused.
pub open spec fn scan_plain(
    data: Seq<u8>,
    pos: int,
    count: nat,
    found: PackView,
) -> Outcome<PackView>
    decreases count,
{
    if count == 0 {
        Outcome::Done(found)
    } else {
        match read_head(data, pos) {
            Outcome::Failed(m) => Outcome::Failed(m),
            Outcome::Broken => Outcome::Broken,
            Outcome::Done((head, at)) => match read_body(data, at, head) {
                Outcome::Failed(m) => Outcome::Failed(m),
                Outcome::Broken => Outcome::Broken,
                Outcome::Done((bytes, next)) => match head {
                    EntryHead::Object(kind) => scan_plain(
                        data,
                        next,
                        (count - 1) as nat,
                        PackView {
                            objects: found.objects.push(ObjectView { kind, data: bytes }),
                            deltas: found.deltas,
                        },
                    ),
                    EntryHead::Named(base) => scan_plain(
                        data,
                        next,
                        (count - 1) as nat,
                        PackView {
                            objects: found.objects,
                            deltas: found.deltas.push(
                                DeltaView { base: hex_text(base), delta: bytes },
                            ),
                        },
                    ),
                    EntryHead::Back(distance) => Outcome::Failed(
                        "ofs_delta objects not yet supported (offset="@ + decimal(distance as nat)
                            + ")"@,
                    ),
                },
            },
        }
    }
}

/// A pack that holds nothing.
pub open spec fn empty_pack() -> PackView {
    PackView { objects: Seq::empty(), deltas: Seq::empty() }
}

/// What reading a pack without deltas between its entries comes to.
pub open spec fn plain_outcome(data: Seq<u8>) -> Outcome<PackView> {
    match header_refusal(data) {
        Some(m) => Outcome::Failed(m),
        None => scan_plain(data, 12, be32(data, 8), empty_pack()),
    }
}

/// A pack of objects stored whole, up to and with the entries of the first `k`.
pub open spec fn plain_prefix(objects: Seq<ObjectView>, k: nat) -> Seq<u8>
    decreases k,
{
    if k == 0 {
        pack_magic() + be32_bytes(2) + be32_bytes(objects.len())
    } else {
        let o = objects[k - 1];
        plain_prefix(objects, (k - 1) as nat) + entry_header(type_bits(o.kind) as nat, o.data.len())
            + deflated(o.data)
    }
}

/// A pack of objects stored whole.
pub open spec fn plain_bytes(objects: Seq<ObjectView>) -> Seq<u8> {
    let entries = plain_prefix(objects, objects.len());
    entries + sha1_of(entries)
}

proof fn lemma_prefix_of(objects: Seq<ObjectView>, k: nat, n: nat)
    requires
        k <= n,
    ensures
        plain_prefix(objects, k).len() <= plain_prefix(objects, n).len(),
        plain_prefix(objects, n).take(plain_prefix(objects, k).len() as int) == plain_prefix(objects, k),
    decreases n - k,
{
    let (a, c) = (plain_prefix(objects, k), plain_prefix(objects, n));
    if k < n {
        let b = plain_prefix(objects, k + 1);
        assert(b.take(a.len() as int) =~= a);
        lemma_prefix_of(objects, k + 1, n);
        assert(c.take(a.len() as int) =~= b.take(a.len() as int));
    } else {
        assert(c.take(a.len() as int) =~= a);
    }
}

proof fn lemma_scan(objects: Seq<ObjectView>, k: nat, tail: Seq<u8>)
    requires
        k <= objects.len(),
        all_known(objects),
        forall|j: int| 0 <= j < objects.len() ==> reads_back((#[trigger] objects[j]).data),
    ensures
        scan_plain(
            plain_prefix(objects, objects.len()) + tail,
            plain_prefix(objects, k).len() as int,
            (objects.len() - k) as nat,
            PackView { objects: objects.take(k as int), deltas: Seq::empty() },
        ) == Outcome::Done(PackView { objects, deltas: Seq::empty() }),
    decreases objects.len() - k,
{
    let n = objects.len();
    if k == n {
        assert(objects.take(k as int) =~= objects);
    } else {
        let o = objects[k as int];
        let whole = plain_prefix(objects, n);
        let before = plain_prefix(objects, k);
        let header = entry_header(type_bits(o.kind) as nat, o.data.len());
        let body = deflated(o.data);
        let next = plain_prefix(objects, k + 1);
        lemma_prefix_of(objects, k + 1, n);
        let rest = whole.skip(next.len() as int) + tail;
        let data = whole + tail;
        let at = before.len() + header.len();
        assert(data =~= before + header + (body + rest)) by {
            assert(whole =~= whole.take(next.len() as int) + whole.skip(next.len() as int));
        }
        lemma_whole_head(before, o.kind, o.data.len(), body + rest);
        assert(data.skip(at as int) =~= body + rest);
        assert(inflated(body + rest) == Ok::<(Seq<u8>, nat), Seq<char>>((o.data, body.len())));
        lemma_scan(objects, k + 1, tail);
        assert(objects.take(k as int).push(o) =~= objects.take(k as int + 1));
        assert(ObjectView { kind: o.kind, data: o.data } == o);
    }
}

proof fn lemma_plain_reads_back(objects: Seq<ObjectView>)
    requires
        objects.len() <= u32::MAX,
        all_known(objects),
        forall|j: int| 0 <= j < objects.len() ==> reads_back((#[trigger] objects[j]).data),
    ensures
        plain_outcome(plain_bytes(objects)) == Outcome::Done(PackView { objects, deltas: Seq::empty() }),
{
    let n = objects.len();
    let whole = plain_prefix(objects, n);
    let data = plain_bytes(objects);
    let first = plain_prefix(objects, 0);
    lemma_prefix_of(objects, 0, n);
    assert forall|j: int| 0 <= j < 12 implies data[j] == first[j] by {
        assert(whole.take(12)[j] == first[j]);
    }
    assert(data.take(4) =~= pack_magic());
    lemma_be32_reads_back(n);
    lemma_be32_reads_back(2);
    assert(be32(data, 4) == be32(be32_bytes(2), 0));
    assert(be32(data, 8) == be32(be32_bytes(n), 0));
    assert(header_refusal(data) is None);
    assert(objects.take(0) =~= Seq::empty());
    lemma_scan(objects, 0, sha1_of(whole));
}

/// A pack of objects stored whole starts with its four letters, the version 2 and the number of
/// its objects, and ends in the digest of all that comes before it. Each object has its entry, in
/// the order of the objects: its type and length, and its content compressed.
pub proof fn plain_pack_has_these_parts(objects: Seq<ObjectView>, k: int)
    requires
        0 <= k < objects.len(),
    ensures
        plain_prefix(objects, 0) == seq![0x50u8, 0x41, 0x43, 0x4b, 0, 0, 0, 2] + be32_bytes(
            objects.len(),
        ),
        plain_prefix(objects, (k + 1) as nat) == plain_prefix(objects, k as nat) + entry_header(
            type_bits(objects[k].kind) as nat,
            objects[k].data.len(),
        ) + deflated(objects[k].data),
        plain_bytes(objects) == plain_prefix(objects, objects.len()) + sha1_of(
            plain_prefix(objects, objects.len()),
        ),
{
    assert(pack_magic() + be32_bytes(2) =~= seq![0x50u8, 0x41, 0x43, 0x4b, 0, 0, 0, 2]);
}

/// A delta against an entry of the pack itself is refused with how far back that is.
pub proof fn plain_packs_have_no_inner_deltas(
    data: Seq<u8>,
    pos: int,
    count: nat,
    found: PackView,
    distance: u64,
    at: int,
)
    requires
        count > 0,
        read_head(data, pos) == Outcome::Done((EntryHead::Back(distance), at)),
        inflated(data.skip(at)) is Ok,
    ensures
        scan_plain(data, pos, count, found) == Outcome::<PackView>::Failed(
            "ofs_delta objects not yet supported (offset="@ + decimal(distance as nat) + ")"@,
        ),
{
}

proof fn lemma_same_scan(
    data: Seq<u8>,
    pos: int,
    count: nat,
    found: Seq<(int, EntryView)>,
    so_far: PackView,
)
    requires
        scan(data, pos, count, found) is Done,
        forall|i: int|
            0 <= i < scan(data, pos, count, found)->Done_0.len() ==> !((#[trigger] scan(
                data,
                pos,
                count,
                found,
            )->Done_0[i]).1 is Back),
        resolve_outcome(found) == Outcome::Done(so_far),
        found.len() <= scan(data, pos, count, found)->Done_0.len(),
    ensures
        scan_plain(data, pos, count, so_far) == resolve_outcome(
            scan(data, pos, count, found)->Done_0,
        ),
    decreases count,
{
    if count > 0 {
        let (entry, next) = read_entry(data, pos)->Done_0;
        let more = found.push((pos, entry));
        let all = scan(data, next, (count - 1) as nat, more)->Done_0;
        lemma_scan_keeps(data, next, (count - 1) as nat, more);
        assert(all[found.len() as int] == more[found.len() as int]) by {
            assert(all.take(more.len() as int)[found.len() as int] == all[found.len() as int]);
        }
        assert(!(entry is Back));
        let n = found.len();
        lemma_resolve_prefix(found, more, n);
        assert(more.drop_last() =~= found);
        let done = resolve(found, n)->Done_0;
        let now = resolve(more, n + 1)->Done_0;
        assert(now.drop_last() =~= done);
        let after = PackView { objects: resolved_objects(now), deltas: named_deltas(more) };
        assert(resolve_outcome(more) == Outcome::Done(after));
        lemma_same_scan(data, next, (count - 1) as nat, more, after);
    }
}

proof fn lemma_scan_keeps(data: Seq<u8>, pos: int, count: nat, found: Seq<(int, EntryView)>)
    ensures
        scan(data, pos, count, found) matches Outcome::Done(all) ==> found.len() <= all.len()
            && all.take(found.len() as int) == found,
    decreases count,
{
    if count == 0 {
        assert(found.take(found.len() as int) =~= found);
    } else if let Outcome::Done((entry, next)) = read_entry(data, pos) {
        let more = found.push((pos, entry));
        lemma_scan_keeps(data, next, (count - 1) as nat, more);
        if let Outcome::Done(all) = scan(data, next, (count - 1) as nat, more) {
            assert(all.take(found.len() as int) =~= all.take(more.len() as int).take(
                found.len() as int,
            ));
            assert(more.take(found.len() as int) =~= found);
        }
    }
}

proof fn lemma_resolve_prefix(found: Seq<(int, EntryView)>, more: Seq<(int, EntryView)>, n: nat)
    requires
        n <= found.len() < more.len(),
        forall|i: int| 0 <= i < found.len() ==> #[trigger] more[i] == found[i],
    ensures
        resolve(more, n) == resolve(found, n),
    decreases n,
{
    if n > 0 {
        lemma_resolve_prefix(found, more, (n - 1) as nat);
        assert(more[n - 1] == found[n - 1]);
        assert(more.take(n - 1) =~= found.take(n - 1));
    }
}

/// A pack without deltas between its entries is read as any pack is: what `parse` of such packs
/// gives is what that of all packs gives.
pub proof fn plain_packs_are_packs(data: Seq<u8>)
    requires
        scan(data, 12, be32(data, 8), Seq::empty()) matches Outcome::Done(all) && forall|i: int|
            0 <= i < all.len() ==> !((#[trigger] all[i]).1 is Back),
    ensures
        plain_outcome(data) == parse_outcome(data),
{
    let none = Seq::<(int, EntryView)>::empty();
    assert(resolved_objects(Seq::empty()) =~= Seq::empty());
    assert(named_deltas(none) =~= Seq::empty());
    assert(resolve_outcome(none) == Outcome::Done(empty_pack()));
    lemma_same_scan(data, 12, be32(data, 8), none, empty_pack());
}

/// Reads a pack without deltas between its entries; `None` when it breaks off inside a
/// distance.
pub(crate) fn run_parse(data: &[u8]) -> (r: Option<Result<ParseResult, String>>)
    ensures
        match plain_outcome(data@) {
            Outcome::Done(p) => r matches Some(Ok(v)) && v@ == p,
            Outcome::Failed(m) => r matches Some(Err(e)) && e@ == m,
            Outcome::Broken => r is None,
        },
{
    if let Some(m) = check_header(data) {
        return Some(Err(m));
    }
    let count: u32 = read_be32(data, 8);
    let mut found = ParseResult { objects: Vec::new(), deltas: Vec::new() };
    let mut pos: usize = 12;
    let mut left: u32 = count;
    assert(found@ =~= empty_pack());
    while left > 0
        invariant
            pos <= data.len(),
            plain_outcome(data@) == scan_plain(data@, pos as int, left as nat, found@),
        decreases left,
    {
        let ghost before = found@;
        let (head, at) = match read_head_at(data, pos) {
            None => {
                return None;
            },
            Some(Err(e)) => {
                return Some(Err(e));
            },
            Some(Ok(v)) => v,
        };
        let (bytes, next) = match read_body_at(data, at, &head) {
            Err(e) => {
                return Some(Err(e));
            },
            Ok(v) => v,
        };
        match head {
            Head::Object(kind) => {
                let o = PackObject { obj_type: kind.to_owned(), data: bytes };
                found.objects.push(o);
                assert(found@ =~= PackView {
                    objects: before.objects.push(o@),
                    deltas: before.deltas,
                });
            },
            Head::Named(base) => {
                let d = UnresolvedDelta { base_sha: to_hex(&base), delta_data: bytes };
                found.deltas.push(d);
                assert(found@ =~= PackView {
                    objects: before.objects,
                    deltas: before.deltas.push(d@),
                });
            },
            Head::Back(distance) => {
                let mut m = numbered("ofs_delta objects not yet supported (offset=", distance);
                m.append(")");
                return Some(Err(m));
            },
        }
        pos = next;
        left -= 1;
    }
    Some(Ok(found))
}

/// Reads a pack without deltas between its entries.
pub fn parse(data: &[u8]) -> (r: Result<ParseResult, String>)
    requires
        !(plain_outcome(data@) is Broken),
    ensures
        plain_outcome(data@).is_result(r, |p: ParseResult| p@),
{
    match run_parse(data) {
        Some(r) => r,
        None => Err(String::new()),
    }
}

/// Reads a pack without deltas between its entries, or gives `None` when it breaks off inside
/// a distance.
pub fn parse_checked(data: &[u8]) -> (r: Option<Result<ParseResult, String>>)
    ensures
        match plain_outcome(data@) {
            Outcome::Done(p) => r matches Some(Ok(v)) && v@ == p,
            Outcome::Failed(m) => r matches Some(Err(e)) && e@ == m,
            Outcome::Broken => r is None,
        },
{
    match run_parse(data) {
        Some(_) => Some(parse(data)),
        None => None,
    }
}

/// Builds a pack of objects in their order, each stored whole. What `parse` makes of it are
/// the objects.
pub fn build(objects: &[PackObject]) -> (r: Vec<u8>)
    requires
        all_known(object_views(objects@)),
    ensures
        r@ == plain_bytes(object_views(objects@)),
        r@.len() == plain_prefix(object_views(objects@), objects@.len()).len() + 20,
        objects@.len() <= u32::MAX ==> plain_outcome(r@) == Outcome::Done(
            PackView { objects: object_views(objects@), deltas: Seq::empty() },
        ),
{
    let ghost views = object_views(objects@);
    let mut out: Vec<u8> = Vec::new();
    push_pack_start(&mut out, objects.len());
    assert(out@ =~= plain_prefix(views, 0));
    let mut k: usize = 0;
    while k < objects.len()
        invariant
            k <= objects.len(),
            views == object_views(objects@),
            all_known(views),
            out@ == plain_prefix(views, k as nat),
            forall|j: int| 0 <= j < k ==> reads_back((#[trigger] views[j]).data),
        decreases objects.len() - k,
    {
        let o = &objects[k];
        assert(views[k as int] == o@);
        encode_pack_header(&mut out, type_to_bits(o.obj_type.as_str()), o.data.len() as u64);
        let compressed = zlib_compress(&o.data);
        push_bytes(&mut out, &compressed);
        assert(reads_back(o.data@));
        k += 1;
    }
    proof {
        if objects@.len() <= u32::MAX {
            lemma_plain_reads_back(views);
        }
    }
    let digest = sha1_digest(&out);
    push_bytes(&mut out, &digest);
    out
}

} // verus!
