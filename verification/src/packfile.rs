//! The reading of packs.

use crate::delta::{delta_outcome, run_delta};
use crate::object::{
    all_known, bits_type, copy_bytes, delta_views, known_type, object_views,
    type_bits_read_back, type_from_bits, DeltaView, ObjectView, PackObject, PackView,
    ParseResult, UnresolvedDelta,
};
use crate::outcome::Outcome;
use crate::text::{decimal, hex_text, push_decimal, same_bytes, to_hex};
use crate::varint::{distance_prefix, header_len, read_distance, read_header_len};
use crate::zlib::{inflate, inflated};
use std::collections::HashMap;
use vstd::prelude::*;
use vstd::string::*;

verus! {

/// The head of a pack entry: what it says before its compressed data.
pub enum EntryHead {
    /// An object of this type, stored whole.
    Object(Seq<char>),
    /// A delta against the object of this name.
    Named(Seq<u8>),
    /// A delta against the entry that starts this many bytes before.
    Back(u64),
}

/// The four bytes at `pos` as a number, the highest first.
pub open spec fn be32(data: Seq<u8>, pos: int) -> nat {
    (data[pos] * 0x100_0000 + data[pos + 1] * 0x1_0000 + data[pos + 2] * 0x100 + data[pos + 3]) as nat
}

/// The head of the entry at `pos`, and where its compressed data starts. The size that it
/// announces is not looked at: the compressed data says where it ends.
pub open spec fn read_head(data: Seq<u8>, pos: int) -> Outcome<(EntryHead, int)> {
    if pos >= data.len() {
        Outcome::Failed("unexpected end of packfile"@)
    } else {
        let bits = (data[pos] / 16 % 8) as u8;
        match header_len(data.skip(pos)) {
            None => Outcome::Failed("unexpected end of packfile in size"@),
            Some(n) => {
                let at = pos + n;
                if bits == 7 {
                    if at + 20 > data.len() {
                        Outcome::Failed("unexpected end of packfile in ref_delta base SHA"@)
                    } else {
                        Outcome::Done((EntryHead::Named(data.subrange(at, at + 20)), at + 20))
                    }
                } else if bits == 6 {
                    match distance_prefix(data.skip(at), 0) {
                        None => Outcome::Broken,
                        Some((v, k)) => Outcome::Done(
                            (EntryHead::Back((v % 0x1_0000_0000_0000_0000) as u64), at + k),
                        ),
                    }
                } else {
                    match bits_type(bits) {
                        None => Outcome::Failed("unknown object type: "@ + decimal(bits as nat)),
                        Some(kind) => Outcome::Done((EntryHead::Object(kind), at)),
                    }
                }
            },
        }
    }
}

/// What a message about an entry's compressed data starts with.
pub open spec fn body_label(head: EntryHead) -> Seq<char> {
    match head {
        EntryHead::Object(_) => "zlib decompression failed: "@,
        EntryHead::Named(_) => "zlib decompression failed for delta: "@,
        EntryHead::Back(_) => "zlib decompression failed for ofs_delta: "@,
    }
}

/// What the compressed data at `at` holds, and where it ends.
pub open spec fn read_body(data: Seq<u8>, at: int, head: EntryHead) -> Outcome<(Seq<u8>, int)> {
    match inflated(data.skip(at)) {
        Ok((bytes, n)) => Outcome::Done((bytes, at + n)),
        Err(m) => Outcome::Failed(body_label(head) + m),
    }
}

/// An entry of a pack.
#[verifier::ext_equal]
pub enum EntryView {
    /// An object stored whole.
    Object(ObjectView),
    /// A delta against an object elsewhere.
    Named(DeltaView),
    /// A delta against the entry that starts at this position.
    Back(int, Seq<u8>),
}

/// The entry that starts at `pos` with this head and holds these bytes.
pub open spec fn entry_of(head: EntryHead, pos: int, bytes: Seq<u8>) -> EntryView {
    match head {
        EntryHead::Object(kind) => EntryView::Object(ObjectView { kind, data: bytes }),
        EntryHead::Named(base) => EntryView::Named(DeltaView { base: hex_text(base), delta: bytes }),
        EntryHead::Back(distance) => EntryView::Back(pos - distance as usize, bytes),
    }
}

/// The message for a distance that leads out of the pack.
pub open spec fn distance_message(distance: nat, pos: nat) -> Seq<char> {
    "ofs_delta offset "@ + decimal(distance) + " exceeds object position "@ + decimal(pos)
}

/// The entry at `pos`, and where it ends.
pub open spec fn read_entry(data: Seq<u8>, pos: int) -> Outcome<(EntryView, int)> {
    match read_head(data, pos) {
        Outcome::Failed(m) => Outcome::Failed(m),
        Outcome::Broken => Outcome::Broken,
        Outcome::Done((head, at)) => if head matches EntryHead::Back(d) && d as usize > pos {
            Outcome::Failed(distance_message(head->Back_0 as nat, pos as nat))
        } else {
            match read_body(data, at, head) {
                Outcome::Failed(m) => Outcome::Failed(m),
                Outcome::Broken => Outcome::Broken,
                Outcome::Done((bytes, next)) => Outcome::Done((entry_of(head, pos, bytes), next)),
            }
        },
    }
}

/// The entries of a pack with the positions at which they start: `found`, and `count` more from
/// `pos` on.
pub open spec fn scan(
    data: Seq<u8>,
    pos: int,
    count: nat,
    found: Seq<(int, EntryView)>,
) -> Outcome<Seq<(int, EntryView)>>
    decreases count,
{
    if count == 0 {
        Outcome::Done(found)
    } else {
        match read_entry(data, pos) {
            Outcome::Failed(m) => Outcome::Failed(m),
            Outcome::Broken => Outcome::Broken,
            Outcome::Done((entry, next)) => scan(
                data,
                next,
                (count - 1) as nat,
                found.push((pos, entry)),
            ),
        }
    }
}

/// The entry that starts at `pos`.
pub open spec fn starting_at(entries: Seq<(int, EntryView)>, pos: int) -> Option<int>
    decreases entries.len(),
{
    if entries.len() == 0 {
        None
    } else if entries.last().0 == pos {
        Some(entries.len() - 1)
    } else {
        starting_at(entries.drop_last(), pos)
    }
}

/// The objects that the first `n` entries stand for, with no object for a delta whose base is
/// elsewhere. A delta against an entry before it is applied to the object of that entry; one
/// against itself has no meaning.
pub open spec fn resolve(entries: Seq<(int, EntryView)>, n: nat) -> Outcome<Seq<Option<ObjectView>>>
    decreases n,
{
    if n == 0 {
        Outcome::Done(Seq::empty())
    } else {
        let i = n - 1;
        match resolve(entries, i as nat) {
            Outcome::Done(done) => match entries[i].1 {
                EntryView::Object(o) => Outcome::Done(done.push(Some(o))),
                EntryView::Named(_) => Outcome::Done(done.push(None)),
                EntryView::Back(base_pos, delta) => match resolve_back(
                    entries.take(i),
                    done,
                    entries[i].0,
                    base_pos,
                    delta,
                ) {
                    Outcome::Done(o) => Outcome::Done(done.push(Some(o))),
                    Outcome::Failed(m) => Outcome::Failed(m),
                    Outcome::Broken => Outcome::Broken,
                },
            },
            other => other,
        }
    }
}

/// The object of an entry at `pos` that is a delta against the entry at `base_pos`, the entries
/// before it being given with their objects.
pub open spec fn resolve_back(
    before: Seq<(int, EntryView)>,
    done: Seq<Option<ObjectView>>,
    pos: int,
    base_pos: int,
    delta: Seq<u8>,
) -> Outcome<ObjectView> {
    if base_pos == pos {
        Outcome::Broken
    } else {
        match starting_at(before, base_pos) {
            None => Outcome::Failed(
                "ofs_delta base at offset "@ + decimal(base_pos as nat) + " not found"@,
            ),
            Some(j) => match done[j] {
                None => Outcome::Failed("cannot resolve ref_delta as ofs_delta base"@),
                Some(base) => match delta_outcome(base.data, delta) {
                    Outcome::Done(bytes) => Outcome::Done(
                        ObjectView { kind: base.kind, data: bytes },
                    ),
                    Outcome::Failed(m) => Outcome::Failed(m),
                    Outcome::Broken => Outcome::Broken,
                },
            },
        }
    }
}

/// The objects among them, in order.
pub open spec fn resolved_objects(done: Seq<Option<ObjectView>>) -> Seq<ObjectView>
    decreases done.len(),
{
    if done.len() == 0 {
        Seq::empty()
    } else {
        match done.last() {
            Some(o) => resolved_objects(done.drop_last()).push(o),
            None => resolved_objects(done.drop_last()),
        }
    }
}

/// The deltas against objects elsewhere among the entries, in order.
pub open spec fn named_deltas(entries: Seq<(int, EntryView)>) -> Seq<DeltaView>
    decreases entries.len(),
{
    if entries.len() == 0 {
        Seq::empty()
    } else {
        match entries.last().1 {
            EntryView::Named(d) => named_deltas(entries.drop_last()).push(d),
            _ => named_deltas(entries.drop_last()),
        }
    }
}

/// What is refused about the first twelve bytes of a pack, if anything.
pub open spec fn header_refusal(data: Seq<u8>) -> Option<Seq<char>> {
    if data.len() < 12 {
        Some("packfile too short"@)
    } else if data.take(4) != pack_magic() {
        Some("invalid packfile magic"@)
    } else if be32(data, 4) != 2 && be32(data, 4) != 3 {
        Some("unsupported packfile version: "@ + decimal(be32(data, 4)))
    } else {
        None
    }
}

/// The four letters that a pack starts with.
pub open spec fn pack_magic() -> Seq<u8> {
    seq![0x50u8, 0x41, 0x43, 0x4b]
}

/// What the entries of a pack come to.
pub open spec fn resolve_outcome(entries: Seq<(int, EntryView)>) -> Outcome<PackView> {
    match resolve(entries, entries.len()) {
        Outcome::Done(done) => Outcome::Done(
            PackView { objects: resolved_objects(done), deltas: named_deltas(entries) },
        ),
        Outcome::Failed(m) => Outcome::Failed(m),
        Outcome::Broken => Outcome::Broken,
    }
}

/// What reading a pack comes to. The checksum at its end is not looked at.
pub open spec fn parse_outcome(data: Seq<u8>) -> Outcome<PackView> {
    match header_refusal(data) {
        Some(m) => Outcome::Failed(m),
        None => match scan(data, 12, be32(data, 8), Seq::empty()) {
            Outcome::Done(entries) => resolve_outcome(entries),
            Outcome::Failed(m) => Outcome::Failed(m),
            Outcome::Broken => Outcome::Broken,
        },
    }
}

/// Whether the objects that are stored whole among entries have types that can be stored.
spec fn known_entries(entries: Seq<(int, EntryView)>) -> bool {
    forall|i: int|
        0 <= i < entries.len() ==> ((#[trigger] entries[i]).1 matches EntryView::Object(o) ==> known_type(
            o.kind,
        ))
}

proof fn lemma_scan_known(data: Seq<u8>, pos: int, count: nat, found: Seq<(int, EntryView)>)
    requires
        known_entries(found),
    ensures
        scan(data, pos, count, found) matches Outcome::Done(entries) ==> known_entries(entries),
    decreases count,
{
    if count > 0 {
        if let Outcome::Done((entry, next)) = read_entry(data, pos) {
            if let EntryView::Object(o) = entry {
                type_bits_read_back(o.kind, (data[pos] / 16 % 8) as u8);
            }
            lemma_scan_known(data, next, (count - 1) as nat, found.push((pos, entry)));
        }
    }
}

proof fn lemma_resolve_known(entries: Seq<(int, EntryView)>, n: nat)
    requires
        known_entries(entries),
        n <= entries.len(),
    ensures
        resolve(entries, n) matches Outcome::Done(done) ==> done.len() == n && (forall|i: int|
            0 <= i < done.len() ==> (#[trigger] done[i] matches Some(o) ==> known_type(o.kind)))
            && all_known(resolved_objects(done)),
    decreases n,
{
    if n > 0 {
        let i = n - 1;
        lemma_resolve_known(entries, i as nat);
        if let (Outcome::Done(done), Outcome::Done(next)) = (
            resolve(entries, i as nat),
            resolve(entries, n),
        ) {
            assert(next.drop_last() =~= done);
            if let EntryView::Back(base_pos, delta) = entries[i].1 {
                lemma_starting_at(entries.take(i), base_pos);
            }
            assert(entries[i] == entries[i]);
        }
    }
}

/// Every object of a pack has a type that can be stored, so that it can be packed again.
pub proof fn parsed_types_are_known(data: Seq<u8>)
    ensures
        parse_outcome(data) matches Outcome::Done(p) ==> all_known(p.objects),
{
    lemma_scan_known(data, 12, be32(data, 8), Seq::empty());
    if let Outcome::Done(entries) = scan(data, 12, be32(data, 8), Seq::empty()) {
        lemma_resolve_known(entries, entries.len());
    }
}

/// Whether the object of the entry at `i` is what the entry says, `done` holding the objects of
/// the entries: that which it stores; none for a delta against an object elsewhere; and for one
/// against an entry of the pack, what the delta makes of the object of some earlier entry, the one
/// that starts where the delta says, under its type.
pub open spec fn stands_for(
    entries: Seq<(int, EntryView)>,
    done: Seq<Option<ObjectView>>,
    i: int,
) -> bool {
    match entries[i].1 {
        EntryView::Object(o) => done[i] == Some(o),
        EntryView::Named(_) => done[i] is None,
        EntryView::Back(base_pos, delta) => exists|j: int|
            {
                &&& 0 <= j < i
                &&& (#[trigger] entries[j]).0 == base_pos
                &&& done[j] matches Some(base) && done[i] matches Some(o) && o.kind == base.kind
                    && delta_outcome(base.data, delta) == Outcome::Done(o.data)
            },
    }
}

/// Whether each entry starts behind those before it.
pub open spec fn ascending(entries: Seq<(int, EntryView)>) -> bool {
    forall|i: int, j: int|
        #![trigger entries[i], entries[j]]
        0 <= i < j < entries.len() ==> entries[i].0 < entries[j].0
}

proof fn lemma_found_where_it_starts(entries: Seq<(int, EntryView)>, j: int)
    requires
        0 <= j < entries.len(),
        ascending(entries),
    ensures
        starting_at(entries, entries[j].0) == Some(j),
    decreases entries.len(),
{
    let n = entries.len() - 1;
    if j < n {
        assert(entries[j].0 < entries[n].0);
        assert(entries.drop_last()[j] == entries[j]);
        assert forall|a: int, b: int|
            #![trigger entries.drop_last()[a], entries.drop_last()[b]]
            0 <= a < b < n implies entries.drop_last()[a].0 < entries.drop_last()[b].0 by {
            assert(entries[a].0 < entries[b].0);
        }
        lemma_found_where_it_starts(entries.drop_last(), j);
    }
}

proof fn lemma_stands(entries: Seq<(int, EntryView)>, done: Seq<Option<ObjectView>>, n: nat)
    requires
        n <= entries.len() == done.len(),
        ascending(entries),
        forall|i: int| 0 <= i < entries.len() ==> #[trigger] stands_for(entries, done, i),
    ensures
        resolve(entries, n) == Outcome::Done(done.take(n as int)),
    decreases n,
{
    if n == 0 {
        assert(done.take(0) =~= Seq::empty());
    } else {
        let i = n - 1;
        lemma_stands(entries, done, i as nat);
        assert(stands_for(entries, done, i));
        assert(done.take(i).push(done[i]) =~= done.take(n as int));
        if let EntryView::Back(base_pos, delta) = entries[i].1 {
            let j = choose|j: int|
                {
                    &&& 0 <= j < i
                    &&& (#[trigger] entries[j]).0 == base_pos
                    &&& done[j] matches Some(base) && done[i] matches Some(o) && o.kind == base.kind
                        && delta_outcome(base.data, delta) == Outcome::Done(o.data)
                };
            let before = entries.take(i);
            assert(entries[j].0 < entries[i].0);
            assert(before[j] == entries[j]);
            assert forall|a: int, b: int|
                #![trigger before[a], before[b]]
                0 <= a < b < before.len() implies before[a].0 < before[b].0 by {
                assert(entries[a].0 < entries[b].0);
            }
            lemma_found_where_it_starts(before, j);
            assert(done.take(i)[j] == done[j]);
            let (base, o) = (done[j]->0, done[i]->0);
            assert(ObjectView { kind: base.kind, data: o.data } =~= o);
        }
    }
}

proof fn lemma_objects_among(done: Seq<Option<ObjectView>>)
    ensures
        resolved_objects(done) == done.filter(|s: Option<ObjectView>| s is Some).map_values(
            |s: Option<ObjectView>| s->0,
        ),
    decreases done.len(),
{
    reveal(Seq::filter);
    let (is_object, object) = (
        |s: Option<ObjectView>| s is Some,
        |s: Option<ObjectView>| s->0,
    );
    if done.len() == 0 {
        assert(resolved_objects(done) =~= done.filter(is_object).map_values(object));
    } else {
        lemma_objects_among(done.drop_last());
        let front = done.drop_last().filter(is_object);
        if done.last() is Some {
            assert(front.push(done.last()).map_values(object) =~= front.map_values(object).push(
                done.last()->0,
            ));
        }
    }
}

proof fn lemma_deltas_among(entries: Seq<(int, EntryView)>)
    ensures
        named_deltas(entries) == entries.filter(|e: (int, EntryView)| e.1 is Named).map_values(
            |e: (int, EntryView)| e.1->Named_0,
        ),
    decreases entries.len(),
{
    reveal(Seq::filter);
    let (is_named, delta) = (
        |e: (int, EntryView)| e.1 is Named,
        |e: (int, EntryView)| e.1->Named_0,
    );
    if entries.len() == 0 {
        assert(named_deltas(entries) =~= entries.filter(is_named).map_values(delta));
    } else {
        lemma_deltas_among(entries.drop_last());
        let front = entries.drop_last().filter(is_named);
        if entries.last().1 is Named {
            assert(front.push(entries.last()).map_values(delta) =~= front.map_values(delta).push(
                entries.last().1->Named_0,
            ));
        }
    }
}

/// Entries resolve to the objects that they stand for, in their order, however far before a delta
/// its base is; the deltas against objects elsewhere are given too, in theirs.
pub proof fn entries_resolve(entries: Seq<(int, EntryView)>, done: Seq<Option<ObjectView>>)
    requires
        entries.len() == done.len(),
        ascending(entries),
        forall|i: int| 0 <= i < entries.len() ==> #[trigger] stands_for(entries, done, i),
    ensures
        resolve_outcome(entries) == Outcome::Done(
            PackView {
                objects: done.filter(|s: Option<ObjectView>| s is Some).map_values(
                    |s: Option<ObjectView>| s->0,
                ),
                deltas: entries.filter(|e: (int, EntryView)| e.1 is Named).map_values(
                    |e: (int, EntryView)| e.1->Named_0,
                ),
            },
        ),
{
    lemma_stands(entries, done, entries.len());
    assert(done.take(entries.len() as int) =~= done);
    lemma_objects_among(done);
    lemma_deltas_among(entries);
}

/// Entries that resolve stand for objects, each as it says.
pub proof fn resolved_entries_stand(entries: Seq<(int, EntryView)>, n: nat)
    requires
        n <= entries.len(),
    ensures
        resolve(entries, n) matches Outcome::Done(done) ==> done.len() == n && forall|i: int|
            0 <= i < n ==> #[trigger] stands_for(entries, done, i),
    decreases n,
{
    if n > 0 {
        let i = n - 1;
        resolved_entries_stand(entries, i as nat);
        if let (Outcome::Done(before), Outcome::Done(done)) = (
            resolve(entries, i as nat),
            resolve(entries, n),
        ) {
            assert forall|k: int| 0 <= k < n implies #[trigger] stands_for(entries, done, k) by {
                if k < i {
                    assert(stands_for(entries, before, k));
                    assert(done[k] == before[k]);
                    if let EntryView::Back(base_pos, delta) = entries[k].1 {
                        let j = choose|j: int|
                            {
                                &&& 0 <= j < k
                                &&& (#[trigger] entries[j]).0 == base_pos
                                &&& before[j] matches Some(base) && before[k] matches Some(o)
                                    && o.kind == base.kind && delta_outcome(base.data, delta)
                                    == Outcome::Done(o.data)
                            };
                        assert(entries[j].0 == base_pos && done[j] == before[j]);
                    }
                } else if let EntryView::Back(base_pos, delta) = entries[i].1 {
                    lemma_starting_at(entries.take(i), base_pos);
                    let j = starting_at(entries.take(i), base_pos)->0;
                    assert(entries.take(i)[j] == entries[j]);
                    assert(entries[j].0 == base_pos && done[j] == before[j]);
                }
            }
        }
    }
}

proof fn lemma_not_found(entries: Seq<(int, EntryView)>, pos: int)
    requires
        forall|j: int| 0 <= j < entries.len() ==> (#[trigger] entries[j]).0 != pos,
    ensures
        starting_at(entries, pos) is None,
    decreases entries.len(),
{
    if entries.len() > 0 {
        assert(entries[entries.len() - 1].0 != pos);
        assert forall|j: int| 0 <= j < entries.len() - 1 implies (#[trigger] entries.drop_last()[j]).0
            != pos by {
            assert(entries[j].0 != pos);
        }
        lemma_not_found(entries.drop_last(), pos);
    }
}

/// A delta against an entry of the pack is refused where no earlier entry starts at its base, and
/// the pack with it.
pub proof fn missing_base_is_refused(entries: Seq<(int, EntryView)>, i: int)
    requires
        0 <= i < entries.len(),
        resolve(entries, i as nat) is Done,
        entries[i].1 is Back,
        entries[i].1->Back_0 != entries[i].0,
        forall|j: int| 0 <= j < i ==> (#[trigger] entries[j]).0 != entries[i].1->Back_0,
    ensures
        resolve_outcome(entries) == Outcome::<PackView>::Failed(
            "ofs_delta base at offset "@ + decimal(entries[i].1->Back_0 as nat) + " not found"@,
        ),
{
    let before = entries.take(i);
    assert forall|j: int| 0 <= j < before.len() implies (#[trigger] before[j]).0
        != entries[i].1->Back_0 by {
        assert(entries[j].0 != entries[i].1->Back_0);
    }
    lemma_not_found(before, entries[i].1->Back_0);
    lemma_resolve_next(entries, i as nat);
}

/// A delta against an entry of the pack that is itself a delta against an object elsewhere is
/// refused, and so is one that cannot be applied to its base, for the reason that the delta gives.
pub proof fn unresolvable_delta_is_refused(
    entries: Seq<(int, EntryView)>,
    i: int,
    j: int,
    message: Seq<char>,
)
    requires
        0 <= j < i < entries.len(),
        ascending(entries),
        resolve(entries, i as nat) is Done,
        entries[i].1 is Back,
        entries[i].1->Back_0 == entries[j].0,
        match resolve(entries, i as nat)->Done_0[j] {
            None => message == "cannot resolve ref_delta as ofs_delta base"@,
            Some(base) => delta_outcome(base.data, entries[i].1->Back_1) == Outcome::<
                Seq<u8>,
            >::Failed(message),
        },
    ensures
        resolve_outcome(entries) == Outcome::<PackView>::Failed(message),
{
    let before = entries.take(i);
    assert(before[j] == entries[j]);
    assert(entries[j].0 < entries[i].0);
    assert forall|a: int, b: int|
        #![trigger before[a], before[b]]
        0 <= a < b < before.len() implies before[a].0 < before[b].0 by {
        assert(entries[a].0 < entries[b].0);
    }
    lemma_found_where_it_starts(before, j);
    lemma_resolve_next(entries, i as nat);
}

/// An entry of an unknown type is refused, and so is one that says that its base starts before
/// the pack.
pub proof fn odd_entries_are_refused(data: Seq<u8>, pos: int, n: nat)
    requires
        0 <= pos < data.len(),
        header_len(data.skip(pos)) == Some(n),
    ensures
        data[pos] / 16 % 8 == 0 || data[pos] / 16 % 8 == 5 ==> read_entry(data, pos)
            == Outcome::<(EntryView, int)>::Failed(
            "unknown object type: "@ + decimal((data[pos] / 16 % 8) as nat),
        ),
        data[pos] / 16 % 8 == 6 && (distance_prefix(data.skip(pos + n), 0) matches Some((v, k)) && pos
            < v <= usize::MAX) ==> read_entry(data, pos) is Failed,
        data[pos] / 16 % 8 == 7 && pos + n + 20 > data.len() ==> read_entry(data, pos) is Failed,
{
}

/// An entry whose stream cannot be read is refused with the reason, behind words that tell an
/// object, a delta against one elsewhere and a delta against an entry of the pack apart. A base
/// before the start of the pack is refused with the distance and the place of the entry.
pub proof fn entry_refusals_tell_why(
    data: Seq<u8>,
    pos: int,
    head: EntryHead,
    at: int,
    fault: Seq<char>,
)
    requires
        read_head(data, pos) == Outcome::Done((head, at)),
        inflated(data.skip(at)) == Err::<(Seq<u8>, nat), Seq<char>>(fault),
        0 <= pos,
    ensures
        read_entry(data, pos) == Outcome::<(EntryView, int)>::Failed(
            match head {
                EntryHead::Object(_) => "zlib decompression failed: "@ + fault,
                EntryHead::Named(_) => "zlib decompression failed for delta: "@ + fault,
                EntryHead::Back(d) => if d as usize > pos {
                    "ofs_delta offset "@ + decimal(d as nat) + " exceeds object position "@ + decimal(
                        pos as nat,
                    )
                } else {
                    "zlib decompression failed for ofs_delta: "@ + fault
                },
            },
        ),
{
}

/// Entries are read one behind the other: where each starts at the end of that before it, all of
/// them are found, with the places at which they start.
pub proof fn entries_are_read_in_turn(
    data: Seq<u8>,
    places: Seq<int>,
    entries: Seq<EntryView>,
    found: Seq<(int, EntryView)>,
)
    requires
        places.len() == entries.len() + 1,
        forall|k: int|
            0 <= k < entries.len() ==> read_entry(data, #[trigger] places[k]) == Outcome::Done(
                (entries[k], places[k + 1]),
            ),
    ensures
        scan(data, places[0], entries.len(), found) == Outcome::Done(
            found + Seq::new(entries.len(), |k: int| (places[k], entries[k])),
        ),
    decreases entries.len(),
{
    let all = Seq::new(entries.len(), |k: int| (places[k], entries[k]));
    if entries.len() == 0 {
        assert(found + all =~= found);
    } else {
        let (p, e) = (places.drop_first(), entries.drop_first());
        let item = (places[0], entries[0]);
        assert(read_entry(data, places[0]) == Outcome::Done((entries[0], places[1])));
        assert forall|k: int| 0 <= k < e.len() implies read_entry(data, #[trigger] p[k])
            == Outcome::Done((e[k], p[k + 1])) by {
            assert(p[k] == places[k + 1]);
            assert(read_entry(data, places[k + 1]) == Outcome::Done(
                (entries[k + 1], places[k + 2]),
            ));
        }
        entries_are_read_in_turn(data, p, e, found.push(item));
        assert(p[0] == places[1]);
        assert(found.push(item) + Seq::new(e.len(), |k: int| (p[k], e[k])) =~= found + all);
    }
}

/// Entries with the places at which they start.
pub open spec fn placed(places: Seq<int>, entries: Seq<EntryView>) -> Seq<(int, EntryView)> {
    Seq::new(entries.len(), |k: int| (places[k], entries[k]))
}

/// A pack of version 2 or 3 is read whole: each of its entries, as many as it announces, and what
/// they stand for. What follows the last entry is not looked at.
pub proof fn pack_is_read(
    data: Seq<u8>,
    places: Seq<int>,
    entries: Seq<EntryView>,
    done: Seq<Option<ObjectView>>,
)
    requires
        data.len() >= 12,
        data.take(8) == seq![0x50u8, 0x41, 0x43, 0x4b, 0, 0, 0, 2] || data.take(8) == seq![
            0x50u8,
            0x41,
            0x43,
            0x4b,
            0,
            0,
            0,
            3,
        ],
        data[8] * 0x100_0000 + data[9] * 0x1_0000 + data[10] * 0x100 + data[11] == entries.len(),
        places.len() == entries.len() + 1,
        places[0] == 12,
        forall|k: int|
            0 <= k < entries.len() ==> read_entry(data, #[trigger] places[k]) == Outcome::Done(
                (entries[k], places[k + 1]),
            ) && places[k] < places[k + 1],
        done.len() == entries.len(),
        forall|i: int|
            0 <= i < entries.len() ==> #[trigger] stands_for(
                placed(places, entries),
                done,
                i,
            ),
    ensures
        parse_outcome(data) == Outcome::Done(
            PackView {
                objects: done.filter(|s: Option<ObjectView>| s is Some).map_values(
                    |s: Option<ObjectView>| s->0,
                ),
                deltas: placed(places, entries).filter(
                    |e: (int, EntryView)| e.1 is Named,
                ).map_values(|e: (int, EntryView)| e.1->Named_0),
            },
        ),
{
    let all = placed(places, entries);
    lemma_pack_start(data);
    lemma_placed_ascend(places, entries);
    lemma_placed_scan(data, places, entries);
    assert(be32(data, 8) == entries.len());
    entries_resolve(all, done);
}

proof fn lemma_pack_start(data: Seq<u8>)
    requires
        data.len() >= 12,
        data.take(8) == seq![0x50u8, 0x41, 0x43, 0x4b, 0, 0, 0, 2] || data.take(8) == seq![
            0x50u8,
            0x41,
            0x43,
            0x4b,
            0,
            0,
            0,
            3,
        ],
    ensures
        header_refusal(data) is None,
{
    let first = data.take(8);
    assert(data.take(4) =~= first.take(4));
    assert(first.take(4) =~= pack_magic());
    assert(first[4] == 0 && first[5] == 0 && first[6] == 0 && (first[7] == 2 || first[7] == 3));
    assert(data[4] == first[4] && data[5] == first[5] && data[6] == first[6] && data[7] == first[7]);
}

proof fn lemma_placed_ascend(places: Seq<int>, entries: Seq<EntryView>)
    requires
        places.len() == entries.len() + 1,
        forall|k: int| 0 <= k < entries.len() ==> #[trigger] places[k] < places[k + 1],
    ensures
        ascending(placed(places, entries)),
{
    let all = placed(places, entries);
    assert forall|i: int, j: int|
        #![trigger all[i], all[j]]
        0 <= i < j < all.len() implies all[i].0 < all[j].0 by {
        lemma_places_ascend(places, i, j);
    }
}

proof fn lemma_placed_scan(data: Seq<u8>, places: Seq<int>, entries: Seq<EntryView>)
    requires
        places.len() == entries.len() + 1,
        forall|k: int|
            0 <= k < entries.len() ==> read_entry(data, #[trigger] places[k]) == Outcome::Done(
                (entries[k], places[k + 1]),
            ),
    ensures
        scan(data, places[0], entries.len(), Seq::empty()) == Outcome::Done(placed(places, entries)),
{
    entries_are_read_in_turn(data, places, entries, Seq::empty());
    assert(Seq::<(int, EntryView)>::empty() + Seq::new(
        entries.len(),
        |k: int| (places[k], entries[k]),
    ) =~= placed(places, entries));
}

proof fn lemma_places_ascend(places: Seq<int>, i: int, j: int)
    requires
        0 <= i < j < places.len() - 1,
        forall|k: int| 0 <= k < places.len() - 1 ==> #[trigger] places[k] < places[k + 1],
    ensures
        places[i] < places[j],
    decreases j - i,
{
    assert(places[j - 1] < places[j]);
    if i < j - 1 {
        lemma_places_ascend(places, i, j - 1);
    }
}

/// What does not start as a pack is refused: with fewer than twelve bytes, other letters than
/// those of a pack, or another version than 2 and 3.
pub proof fn other_starts_are_refused(data: Seq<u8>)
    ensures
        data.len() < 12 ==> parse_outcome(data) is Failed,
        data.len() >= 12 && data.take(4) != seq![0x50u8, 0x41, 0x43, 0x4b] ==> parse_outcome(data) is Failed,
        data.len() >= 12 && !(data[4] == 0 && data[5] == 0 && data[6] == 0 && 2 <= data[7] <= 3)
            ==> parse_outcome(data) is Failed,
{
    if data.len() >= 12 && !(data[4] == 0 && data[5] == 0 && data[6] == 0 && 2 <= data[7] <= 3) {
        assert(be32(data, 4) != 2 && be32(data, 4) != 3);
    }
}

/// The head of a pack entry.
pub enum Head {
    /// An object of this type, stored whole.
    Object(&'static str),
    /// A delta against the object of this name.
    Named(Vec<u8>),
    /// A delta against the entry that starts this many bytes before.
    Back(u64),
}

impl View for Head {
    type V = EntryHead;

    open spec fn view(&self) -> EntryHead {
        match *self {
            Head::Object(kind) => EntryHead::Object(kind@),
            Head::Named(base) => EntryHead::Named(base@),
            Head::Back(distance) => EntryHead::Back(distance),
        }
    }
}

/// The four bytes at `pos` as a number.
pub(crate) fn read_be32(data: &[u8], pos: usize) -> (r: u32)
    requires
        pos + 4 <= data.len(),
    ensures
        r == be32(data@, pos as int),
{
    data[pos] as u32 * 0x100_0000 + data[pos + 1] as u32 * 0x1_0000 + data[pos + 2] as u32 * 0x100
        + data[pos + 3] as u32
}

/// `message` with a number behind it.
pub(crate) fn numbered(message: &str, n: u64) -> (r: String)
    ensures
        r@ == message@ + decimal(n as nat),
{
    let mut m = message.to_owned();
    push_decimal(&mut m, n);
    m
}

/// Reads the head of the entry at `pos`; `None` when the data ends inside a distance.
pub fn read_head_at(data: &[u8], pos: usize) -> (r: Option<Result<(Head, usize), String>>)
    requires
        pos <= data.len(),
    ensures
        match read_head(data@, pos as int) {
            Outcome::Done((head, at)) => r matches Some(Ok((h, a))) && h@ == head && a == at && pos < at
                <= data.len(),
            Outcome::Failed(m) => r matches Some(Err(e)) && e@ == m,
            Outcome::Broken => r is None,
        },
{
    if pos >= data.len() {
        return Some(Err("unexpected end of packfile".to_owned()));
    }
    let bits: u8 = data[pos] / 16 % 8;
    let at: usize = match read_header_len(data, pos) {
        None => {
            return Some(Err("unexpected end of packfile in size".to_owned()));
        },
        Some(n) => pos + n,
    };
    if bits == 7 {
        if data.len() - at < 20 {
            return Some(Err("unexpected end of packfile in ref_delta base SHA".to_owned()));
        }
        let base = copy_bytes(&data[at..at + 20]);
        Some(Ok((Head::Named(base), at + 20)))
    } else if bits == 6 {
        match read_distance(data, at) {
            None => None,
            Some((distance, n)) => Some(Ok((Head::Back(distance), at + n))),
        }
    } else {
        match type_from_bits(bits) {
            None => Some(Err(numbered("unknown object type: ", bits as u64))),
            Some(kind) => Some(Ok((Head::Object(kind), at))),
        }
    }
}

/// Reads the compressed data at `at`.
pub(crate) fn read_body_at(
    data: &[u8],
    at: usize,
    head: &Head,
) -> (r: Result<(Vec<u8>, usize), String>)
    requires
        at <= data.len(),
    ensures
        match read_body(data@, at as int, head@) {
            Outcome::Done((bytes, next)) => r matches Ok((b, n)) && b@ == bytes && n == next && at <= next
                <= data.len(),
            Outcome::Failed(m) => r matches Err(e) && e@ == m,
            Outcome::Broken => false,
        },
{
    let body = &data[at..data.len()];
    assert(body@ =~= data@.skip(at as int));
    match inflate(body) {
        Ok((bytes, n)) => Ok((bytes, at + n)),
        Err(e) => {
            let mut m = match head {
                Head::Object(_) => "zlib decompression failed: ".to_owned(),
                Head::Named(_) => "zlib decompression failed for delta: ".to_owned(),
                Head::Back(_) => "zlib decompression failed for ofs_delta: ".to_owned(),
            };
            m.append(e.as_str());
            Err(m)
        },
    }
}

/// An entry of a pack.
#[derive(Debug)]
pub enum ParsedEntry {
    /// An object stored whole.
    Object(PackObject),
    /// A delta against an object elsewhere.
    RefDelta(UnresolvedDelta),
    /// A delta against the entry that starts at this position.
    OfsDelta {
        /// The position.
        base_pos: usize,
        /// The delta.
        delta_data: Vec<u8>,
    },
}

impl View for ParsedEntry {
    type V = EntryView;

    open spec fn view(&self) -> EntryView {
        match *self {
            ParsedEntry::Object(o) => EntryView::Object(o@),
            ParsedEntry::RefDelta(d) => EntryView::Named(d@),
            ParsedEntry::OfsDelta { base_pos, delta_data } => EntryView::Back(
                base_pos as int,
                delta_data@,
            ),
        }
    }
}

/// Entries with the positions at which they start.
pub open spec fn entry_views(entries: Seq<(usize, ParsedEntry)>) -> Seq<(int, EntryView)> {
    entries.map_values(|e: (usize, ParsedEntry)| (e.0 as int, e.1@))
}

fn distance_error(distance: u64, pos: usize) -> (r: String)
    ensures
        r@ == distance_message(distance as nat, pos as nat),
{
    let mut m = numbered("ofs_delta offset ", distance);
    m.append(" exceeds object position ");
    push_decimal(&mut m, pos as u64);
    m
}

/// The entry that starts at `pos` with this head and holds these bytes.
pub fn make_entry(head: Head, pos: usize, bytes: Vec<u8>) -> (r: ParsedEntry)
    requires
        head matches Head::Back(distance) ==> distance as usize <= pos,
    ensures
        r@ == entry_of(head@, pos as int, bytes@),
{
    match head {
        Head::Object(kind) => ParsedEntry::Object(
            PackObject { obj_type: kind.to_owned(), data: bytes },
        ),
        Head::Named(base) => ParsedEntry::RefDelta(
            UnresolvedDelta { base_sha: to_hex(&base), delta_data: bytes },
        ),
        Head::Back(distance) => ParsedEntry::OfsDelta {
            base_pos: pos - distance as usize,
            delta_data: bytes,
        },
    }
}

/// Reads the entry at `pos`; `None` when the data ends inside a distance.
fn read_entry_at(data: &[u8], pos: usize) -> (r: Option<Result<(ParsedEntry, usize), String>>)
    requires
        pos <= data.len(),
    ensures
        match read_entry(data@, pos as int) {
            Outcome::Done((entry, next)) => r matches Some(Ok((e, n))) && e@ == entry && n == next && pos < next
                <= data.len(),
            Outcome::Failed(m) => r matches Some(Err(e)) && e@ == m,
            Outcome::Broken => r is None,
        },
{
    let (head, at) = match read_head_at(data, pos) {
        None => {
            return None;
        },
        Some(Err(e)) => {
            return Some(Err(e));
        },
        Some(Ok(v)) => v,
    };
    if let Head::Back(distance) = head {
        if distance as usize > pos {
            return Some(Err(distance_error(distance, pos)));
        }
    }
    let (bytes, next) = match read_body_at(data, at, &head) {
        Err(e) => {
            return Some(Err(e));
        },
        Ok(v) => v,
    };
    let entry = make_entry(head, pos, bytes);
    Some(Ok((entry, next)))
}

/// Reads `count` entries from the first on; `None` when the data ends inside a distance.
fn scan_entries(data: &[u8], count: u32) -> (r: Option<Result<Vec<(usize, ParsedEntry)>, String>>)
    requires
        data.len() >= 12,
    ensures
        match scan(data@, 12, count as nat, Seq::empty()) {
            Outcome::Done(entries) => r matches Some(Ok(v)) && entry_views(v@) == entries,
            Outcome::Failed(m) => r matches Some(Err(e)) && e@ == m,
            Outcome::Broken => r is None,
        },
{
    let mut entries: Vec<(usize, ParsedEntry)> = Vec::new();
    let mut pos: usize = 12;
    let mut left: u32 = count;
    assert(entry_views(entries@) =~= Seq::empty());
    while left > 0
        invariant
            pos <= data.len(),
            scan(data@, pos as int, left as nat, entry_views(entries@)) == scan(
                data@,
                12,
                count as nat,
                Seq::empty(),
            ),
        decreases left,
    {
        let ghost before = entry_views(entries@);
        match read_entry_at(data, pos) {
            None => {
                return None;
            },
            Some(Err(e)) => {
                return Some(Err(e));
            },
            Some(Ok((entry, next))) => {
                let ghost item = (pos as int, entry@);
                entries.push((pos, entry));
                assert(entry_views(entries@) =~= before.push(item));
                pos = next;
            },
        }
        left -= 1;
    }
    Some(Ok(entries))
}

fn base_error(base_pos: usize) -> (r: String)
    ensures
        r@ == "ofs_delta base at offset "@ + decimal(base_pos as nat) + " not found"@,
{
    let mut m = numbered("ofs_delta base at offset ", base_pos as u64);
    m.append(" not found");
    m
}

/// Applies a delta against an earlier entry; `None` when the delta is against its own entry or
/// breaks off.
fn resolve_entry(
    pos: usize,
    base_pos: usize,
    delta: &[u8],
    index: &HashMap<usize, usize>,
    slots: &Vec<Option<usize>>,
    objects: &Vec<PackObject>,
    Ghost(before): Ghost<Seq<(int, EntryView)>>,
    Ghost(done): Ghost<Seq<Option<ObjectView>>>,
) -> (r: Option<Result<PackObject, String>>)
    requires
        index_matches(index@, before),
        slots_match(slots@, objects@, done),
        before.len() == done.len(),
    ensures
        match resolve_back(before, done, pos as int, base_pos as int, delta@) {
            Outcome::Done(o) => r matches Some(Ok(v)) && v@ == o,
            Outcome::Failed(m) => r matches Some(Err(e)) && e@ == m,
            Outcome::Broken => r is None,
        },
{
    broadcast use vstd::std_specs::hash::group_hash_axioms;

    if base_pos == pos {
        return None;
    }
    let j: usize = match index.get(&base_pos) {
        None => {
            return Some(Err(base_error(base_pos)));
        },
        Some(j) => *j,
    };
    assert(starting_at(before, base_pos as int) == Some(j as int));
    proof {
        lemma_starting_at(before, base_pos as int);
    }
    match slots[j] {
        None => Some(Err("cannot resolve ref_delta as ofs_delta base".to_owned())),
        Some(k) => {
            let base = &objects[k];
            match run_delta(&base.data, delta) {
                None => None,
                Some(Err(e)) => Some(Err(e)),
                Some(Ok(bytes)) => {
                    let o = PackObject { obj_type: base.obj_type.clone(), data: bytes };
                    assert(o@ =~= ObjectView { kind: base@.kind, data: bytes@ });
                    Some(Ok(o))
                },
            }
        },
    }
}

/// Whether `index` finds the entries by the positions at which they start.
spec fn index_matches(index: Map<usize, usize>, entries: Seq<(int, EntryView)>) -> bool {
    forall|p: usize|
        match starting_at(entries, p as int) {
            Some(j) => #[trigger] index.contains_key(p) && index[p] == j,
            None => !index.contains_key(p),
        }
}

/// Whether `slots` finds the objects of entries in `objects`.
spec fn slots_match(
    slots: Seq<Option<usize>>,
    objects: Seq<PackObject>,
    done: Seq<Option<ObjectView>>,
) -> bool {
    &&& slots.len() == done.len()
    &&& forall|j: int|
        0 <= j < slots.len() ==> match #[trigger] slots[j] {
            Some(k) => k < objects.len() && done[j] == Some(objects[k as int]@),
            None => done[j] is None,
        }
}

proof fn lemma_starting_at(entries: Seq<(int, EntryView)>, pos: int)
    ensures
        starting_at(entries, pos) matches Some(j) ==> 0 <= j < entries.len() && entries[j].0 == pos,
    decreases entries.len(),
{
    if entries.len() > 0 {
        lemma_starting_at(entries.drop_last(), pos);
    }
}

/// One entry more: what `resolve` adds for it.
proof fn lemma_resolve_next(entries: Seq<(int, EntryView)>, n: nat)
    requires
        n < entries.len(),
    ensures
        resolve(entries, n) is Failed ==> resolve(entries, entries.len()) == resolve(entries, n),
        resolve(entries, n) is Broken ==> resolve(entries, entries.len()) == resolve(entries, n),
        resolve(entries, n + 1) is Failed ==> resolve(entries, entries.len()) == resolve(entries, n + 1),
        resolve(entries, n + 1) is Broken ==> resolve(entries, entries.len()) == resolve(entries, n + 1),
    decreases entries.len() - n,
{
    if n + 1 < entries.len() {
        lemma_resolve_next(entries, n + 1);
    }
}

/// Gives the objects that the entries stand for; `None` when a delta is against its own entry
/// or breaks off.
pub fn resolve_entries(entries: &Vec<(usize, ParsedEntry)>) -> (r: Option<Result<ParseResult, String>>)
    ensures
        match resolve_outcome(entry_views(entries@)) {
            Outcome::Done(p) => r matches Some(Ok(v)) && v@ == p,
            Outcome::Failed(m) => r matches Some(Err(e)) && e@ == m,
            Outcome::Broken => r is None,
        },
{
    broadcast use vstd::std_specs::hash::group_hash_axioms;

    let ghost all = entry_views(entries@);
    let ghost mut done: Seq<Option<ObjectView>> = Seq::empty();
    let mut index: HashMap<usize, usize> = HashMap::new();
    let mut slots: Vec<Option<usize>> = Vec::new();
    let mut objects: Vec<PackObject> = Vec::new();
    let mut deltas: Vec<UnresolvedDelta> = Vec::new();
    let mut i: usize = 0;
    assert(all.take(0) =~= Seq::empty());
    assert(object_views(objects@) =~= Seq::empty());
    assert(delta_views(deltas@) =~= Seq::empty());
    while i < entries.len()
        invariant
            i <= entries.len(),
            all == entry_views(entries@),
            resolve(all, i as nat) == Outcome::Done(done),
            done.len() == i,
            index_matches(index@, all.take(i as int)),
            slots_match(slots@, objects@, done),
            object_views(objects@) == resolved_objects(done),
            delta_views(deltas@) == named_deltas(all.take(i as int)),
        decreases entries.len() - i,
    {
        broadcast use vstd::std_specs::hash::group_hash_axioms;

        let ghost before = all.take(i as int);
        let ghost old_objects = objects@;
        let ghost old_done = done;
        let ghost old_index = index@;
        let ghost old_deltas = deltas@;
        proof {
            lemma_resolve_next(all, i as nat);
            assert(all[i as int] == (entries@[i as int].0 as int, entries@[i as int].1@));
            assert(all.take(i + 1).drop_last() =~= before);
            assert(all.take(i + 1).last() == all[i as int]);
        }
        let pos: usize = entries[i].0;
        match &entries[i].1 {
            ParsedEntry::Object(o) => {
                let o = o.clone();
                proof {
                    done = done.push(Some(o@));
                }
                slots.push(Some(objects.len()));
                objects.push(o);
            },
            ParsedEntry::RefDelta(d) => {
                let d = d.clone();
                proof {
                    done = done.push(None);
                }
                slots.push(None);
                deltas.push(d);
            },
            ParsedEntry::OfsDelta { base_pos, delta_data } => {
                match resolve_entry(
                    pos,
                    *base_pos,
                    delta_data,
                    &index,
                    &slots,
                    &objects,
                    Ghost(before),
                    Ghost(done),
                ) {
                    None => {
                        return None;
                    },
                    Some(Err(e)) => {
                        return Some(Err(e));
                    },
                    Some(Ok(o)) => {
                        proof {
                            done = done.push(Some(o@));
                        }
                        slots.push(Some(objects.len()));
                        objects.push(o);
                    },
                }
            },
        }
        index.insert(pos, i);
        assert(done.drop_last() =~= old_done);
        assert(object_views(objects@) == resolved_objects(done)) by {
            if done.last() is Some {
                assert(object_views(objects@) =~= object_views(old_objects).push(done.last()->0));
            }
        }
        assert(delta_views(deltas@) == named_deltas(all.take(i + 1))) by {
            if deltas.len() > old_deltas.len() {
                assert(delta_views(deltas@) =~= delta_views(old_deltas).push(deltas@.last()@));
            }
        }
        assert(index_matches(index@, all.take(i + 1))) by {
            assert forall|p: usize|
                match starting_at(all.take(i + 1), p as int) {
                    Some(j) => #[trigger] index@.contains_key(p) && index@[p] == j,
                    None => !index@.contains_key(p),
                } by {
                assert(index@.contains_key(p) == (p == pos || old_index.contains_key(p)));
            }
        }
        i += 1;
    }
    assert(all.take(i as int) =~= all);
    let r = ParseResult { objects, deltas };
    assert(r@ =~= PackView { objects: resolved_objects(done), deltas: named_deltas(all) });
    Some(Ok(r))
}

/// Reads a pack; `None` when it breaks off or refers to itself.
pub(crate) fn run_parse(data: &[u8]) -> (r: Option<Result<ParseResult, String>>)
    ensures
        match parse_outcome(data@) {
            Outcome::Done(p) => r matches Some(Ok(v)) && v@ == p,
            Outcome::Failed(m) => r matches Some(Err(e)) && e@ == m,
            Outcome::Broken => r is None,
        },
{
    if let Some(m) = check_header(data) {
        return Some(Err(m));
    }
    match scan_entries(data, read_be32(data, 8)) {
        None => None,
        Some(Err(e)) => Some(Err(e)),
        Some(Ok(entries)) => resolve_entries(&entries),
    }
}

/// What is refused about the first twelve bytes of a pack, if anything.
pub(crate) fn check_header(data: &[u8]) -> (r: Option<String>)
    ensures
        match header_refusal(data@) {
            Some(m) => r matches Some(e) && e@ == m,
            None => r is None && data.len() >= 12,
        },
{
    if data.len() < 12 {
        return Some("packfile too short".to_owned());
    }
    let magic: [u8; 4] = [0x50, 0x41, 0x43, 0x4b];
    let first = &data[0..4];
    assert(first@ =~= data@.take(4));
    assert(magic@ =~= pack_magic());
    if !same_bytes(first, &magic) {
        return Some("invalid packfile magic".to_owned());
    }
    let version: u32 = read_be32(data, 4);
    if version != 2 && version != 3 {
        return Some(numbered("unsupported packfile version: ", version as u64));
    }
    None
}

/// Reads a pack: its objects, and the deltas whose bases it does not hold.
pub fn parse(data: &[u8]) -> (r: Result<ParseResult, String>)
    requires
        !(parse_outcome(data@) is Broken),
    ensures
        parse_outcome(data@).is_result(r, |p: ParseResult| p@),
{
    match run_parse(data) {
        Some(r) => r,
        None => Err(String::new()),
    }
}

/// Reads a pack, or gives `None` when it breaks off inside a delta or refers to itself.
pub fn parse_checked(data: &[u8]) -> (r: Option<Result<ParseResult, String>>)
    ensures
        match parse_outcome(data@) {
            Outcome::Done(p) => r matches Some(Ok(v)) && v@ == p,
            Outcome::Failed(m) => r matches Some(Err(e)) && e@ == m,
            Outcome::Broken => r is None,
        },
{
    match run_parse(data) {
        Some(_) => Some(parse(data)),
        None => None,
    }
}

} // verus!
