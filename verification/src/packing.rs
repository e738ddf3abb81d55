//! The building of packs, with deltas.

use crate::delta::{delta_outcome, push_bytes};
use crate::diff::{compute_delta, delta_bytes, delta_rebuilds_target};
use crate::digest::{sha1_digest, sha1_of};
use crate::object::{
    all_known, is_known_type, known_type, object_name, object_views, type_bits,
    type_bits_read_back, type_to_bits, DeltaView, ObjectView, PackObject, PackView,
};
use crate::order::{in_pack_order, pack_order, pack_order_is_complete, places, sorted_indices};
use crate::outcome::Outcome;
use crate::packfile::{
    be32, header_refusal, named_deltas, pack_magic, parse_outcome, read_entry, read_head,
    resolve, resolve_back, resolved_objects, scan, starting_at, EntryHead, EntryView,
};
use crate::text::{hex_text, same_text};
use crate::varint::{
    distance_bytes, distance_reads_back, encode_ofs_offset, encode_pack_header, entry_header,
    entry_header_reads_back,
};
use crate::zlib::{deflated, inflated, reads_back, zlib_compress};
use vstd::arithmetic::div_mod::{lemma_hoist_over_denominator, lemma_mod_multiples_vanish};
use vstd::prelude::*;

verus! {

/// How an object is stored in a pack.
#[verifier::ext_equal]
pub enum Stored {
    /// Whole.
    Whole,
    /// As this delta against the base object at this place, which the pack does not hold.
    OnBase(int, Seq<u8>),
    /// As this delta against the object before it in the pack.
    OnPrevious(Seq<u8>),
}

/// Whether a delta of `delta_len` bytes against a base elsewhere is worth it for an object of
/// `len` bytes: it saves a tenth.
pub open spec fn base_worth(delta_len: nat, len: nat) -> bool {
    delta_len < len * 9 / 10
}

/// Whether a delta is shorter than the best so far.
pub open spec fn shorter(delta: Seq<u8>, best: Option<(int, Seq<u8>)>) -> bool {
    best matches Some((_, d)) ==> delta.len() < d.len()
}

/// The best delta for an object against the first `n` bases of its type: the shortest that is
/// worth it, and of those of one length the first.
pub open spec fn best_base(bases: Seq<ObjectView>, o: ObjectView, n: nat) -> Option<(int, Seq<u8>)>
    decreases n,
{
    if n == 0 {
        None
    } else {
        let best = best_base(bases, o, (n - 1) as nat);
        let base = bases[n - 1];
        let delta = delta_bytes(base.data, o.data);
        if base.kind == o.kind && base_worth(delta.len(), o.data.len()) && shorter(delta, best) {
            Some((n - 1, delta))
        } else {
            best
        }
    }
}

/// How the object at `k` of those in a pack is stored: as the delta against the object before
/// it, if that is of its type and the delta is shorter than the object and than the best delta
/// against a base; else as the latter; whole when there is none.
#[verifier::opaque]
pub open spec fn stored(objects: Seq<ObjectView>, bases: Seq<ObjectView>, k: int) -> Stored {
    let o = objects[k];
    let best = best_base(bases, o, bases.len());
    let delta = delta_bytes(objects[k - 1].data, o.data);
    if k > 0 && objects[k - 1].kind == o.kind && delta.len() < o.data.len() && shorter(delta, best) {
        Stored::OnPrevious(delta)
    } else {
        match best {
            Some((j, d)) => Stored::OnBase(j, d),
            None => Stored::Whole,
        }
    }
}

/// The bytes that are compressed for an object.
pub open spec fn payload(form: Stored, o: ObjectView) -> Seq<u8> {
    match form {
        Stored::Whole => o.data,
        Stored::OnBase(_, d) => d,
        Stored::OnPrevious(d) => d,
    }
}

/// An entry before its compressed data, `base_name` being the name of its base, if that is
/// elsewhere, and `distance` how far back the entry before it starts.
pub open spec fn start_bytes(form: Stored, o: ObjectView, base_name: Seq<u8>, distance: nat) -> Seq<u8> {
    match form {
        Stored::Whole => entry_header(type_bits(o.kind) as nat, o.data.len()),
        Stored::OnBase(_, d) => entry_header(7, d.len()) + base_name,
        Stored::OnPrevious(d) => entry_header(6, d.len()) + distance_bytes(distance),
    }
}

/// The name of the base of an object that is stored as a delta against one elsewhere.
pub open spec fn base_name(form: Stored, bases: Seq<ObjectView>) -> Seq<u8> {
    match form {
        Stored::OnBase(j, _) => object_name(bases[j]),
        _ => Seq::empty(),
    }
}

/// An entry before its compressed data, `distance` being how far back the entry before it
/// starts.
pub open spec fn entry_start(
    form: Stored,
    o: ObjectView,
    bases: Seq<ObjectView>,
    distance: nat,
) -> Seq<u8> {
    start_bytes(form, o, base_name(form, bases), distance)
}

/// A number in four bytes, the highest first.
pub open spec fn be32_bytes(n: nat) -> Seq<u8> {
    seq![
        (n / 0x100_0000 % 256) as u8,
        (n / 0x1_0000 % 256) as u8,
        (n / 0x100 % 256) as u8,
        (n % 256) as u8,
    ]
}

/// A pack up to and with the entries of its first `k` objects.
#[verifier::opaque]
pub open spec fn pack_prefix(objects: Seq<ObjectView>, bases: Seq<ObjectView>, k: nat) -> Seq<u8>
    decreases k, 0int,
{
    if k == 0 {
        pack_magic() + be32_bytes(2) + be32_bytes(objects.len())
    } else {
        let before = pack_prefix(objects, bases, (k - 1) as nat);
        let form = stored(objects, bases, k - 1);
        let o = objects[k - 1];
        before + entry_start(form, o, bases, entry_distance(objects, bases, (k - 1) as nat))
            + deflated(payload(form, o))
    }
}

/// How far before the entry at `k` that before it starts.
pub open spec fn entry_distance(objects: Seq<ObjectView>, bases: Seq<ObjectView>, k: nat) -> nat
    decreases k, 1int,
{
    if k == 0 {
        0
    } else {
        (pack_prefix(objects, bases, k).len() - pack_prefix(objects, bases, (k - 1) as nat).len()) as nat
    }
}

/// A pack of objects in their order: its entries, and the digest of all that.
pub open spec fn pack_bytes(objects: Seq<ObjectView>, bases: Seq<ObjectView>) -> Seq<u8> {
    let entries = pack_prefix(objects, bases, objects.len());
    entries + sha1_of(entries)
}

/// Whether every object that is stored whole has a type that can be stored.
pub open spec fn storable(objects: Seq<ObjectView>, bases: Seq<ObjectView>) -> bool {
    forall|k: int|
        0 <= k < objects.len() && stored(objects, bases, k) is Whole ==> known_type(
            (#[trigger] objects[k]).kind,
        )
}

/// How an object is stored in a pack.
#[derive(Debug)]
pub enum Form {
    /// Whole.
    Whole,
    /// As this delta against the base object at this place.
    OnBase(usize, Vec<u8>),
    /// As this delta against the object before it in the pack.
    OnPrevious(Vec<u8>),
}

impl View for Form {
    type V = Stored;

    open spec fn view(&self) -> Stored {
        match *self {
            Form::Whole => Stored::Whole,
            Form::OnBase(j, d) => Stored::OnBase(j as int, d@),
            Form::OnPrevious(d) => Stored::OnPrevious(d@),
        }
    }
}

fn is_base_worth(delta_len: usize, len: usize) -> (r: bool)
    ensures
        r == base_worth(delta_len as nat, len as nat),
{
    (delta_len as u128) < len as u128 * 9 / 10
}

/// Finds the best base for an object.
fn find_base(bases: &[PackObject], o: &PackObject) -> (r: Option<(usize, Vec<u8>)>)
    ensures
        match best_base(object_views(bases@), o@, bases@.len()) {
            Some((j, d)) => r matches Some((i, v)) && i == j && v@ == d && i < bases@.len(),
            None => r is None,
        },
{
    let mut best: Option<(usize, Vec<u8>)> = None;
    let mut i: usize = 0;
    while i < bases.len()
        invariant
            i <= bases.len(),
            match best_base(object_views(bases@), o@, i as nat) {
                Some((j, d)) => best matches Some((b, v)) && b == j && v@ == d && b < i,
                None => best is None,
            },
        decreases bases.len() - i,
    {
        let base = &bases[i];
        if same_text(base.obj_type.as_str(), o.obj_type.as_str()) {
            let delta = compute_delta(&base.data, &o.data);
            let smaller = match &best {
                None => true,
                Some((_, d)) => delta.len() < d.len(),
            };
            if is_base_worth(delta.len(), o.data.len()) && smaller {
                best = Some((i, delta));
            }
        }
        i += 1;
    }
    best
}

/// Whether `order` holds places in `objects` and `sorted` the objects there.
spec fn lists(objects: Seq<PackObject>, order: Seq<usize>, sorted: Seq<ObjectView>) -> bool {
    &&& order.len() == sorted.len()
    &&& forall|k: int|
        0 <= k < order.len() ==> (#[trigger] order[k]) < objects.len() && sorted[k] == objects[order[k] as int]@
}

/// Decides how the object at `k` is stored.
fn choose_form(
    objects: &[PackObject],
    order: &Vec<usize>,
    bases: &[PackObject],
    k: usize,
    Ghost(sorted): Ghost<Seq<ObjectView>>,
) -> (r: Form)
    requires
        lists(objects@, order@, sorted),
        k < order.len(),
    ensures
        r@ == stored(sorted, object_views(bases@), k as int),
        r matches Form::OnBase(j, _) ==> j < bases.len(),
{
    reveal(stored);
    let o = &objects[order[k]];
    let best = find_base(bases, o);
    if k > 0 {
        let previous = &objects[order[k - 1]];
        assert(sorted[k - 1] == previous@);
        if same_text(previous.obj_type.as_str(), o.obj_type.as_str()) {
            let delta = compute_delta(&previous.data, &o.data);
            let smaller = match &best {
                None => true,
                Some((_, d)) => delta.len() < d.len(),
            };
            if delta.len() < o.data.len() && smaller {
                return Form::OnPrevious(delta);
            }
        }
    }
    match best {
        Some((j, d)) => Form::OnBase(j, d),
        None => Form::Whole,
    }
}

/// Appends a number in four bytes.
pub(crate) fn push_be32(out: &mut Vec<u8>, n: u32)
    ensures
        final(out)@ == old(out)@ + be32_bytes(n as nat),
{
    out.push((n / 0x100_0000 % 256) as u8);
    out.push((n / 0x1_0000 % 256) as u8);
    out.push((n / 0x100 % 256) as u8);
    out.push((n % 256) as u8);
    assert(out@ =~= old(out)@ + be32_bytes(n as nat));
}

/// Only the low 32 bits of a number are written.
proof fn lemma_be32_low(n: nat)
    ensures
        be32_bytes(n % 0x1_0000_0000) == be32_bytes(n),
{
    let (q, m) = ((n / 0x1_0000_0000) as int, (n % 0x1_0000_0000) as int);
    lemma_hoist_over_denominator(m, 256 * q, 0x100_0000);
    lemma_hoist_over_denominator(m, 0x1_0000 * q, 0x1_0000);
    lemma_hoist_over_denominator(m, 0x100_0000 * q, 0x100);
    lemma_mod_multiples_vanish(q, m / 0x100_0000, 256);
    lemma_mod_multiples_vanish(256 * q, m / 0x1_0000, 256);
    lemma_mod_multiples_vanish(0x1_0000 * q, m / 0x100, 256);
    lemma_mod_multiples_vanish(0x100_0000 * q, m, 256);
}

/// Appends the first twelve bytes of a pack of `n` objects.
pub(crate) fn push_pack_start(out: &mut Vec<u8>, n: usize)
    ensures
        final(out)@ == old(out)@ + (pack_magic() + be32_bytes(2) + be32_bytes(n as nat)),
{
    let magic: [u8; 4] = [0x50, 0x41, 0x43, 0x4b];
    assert(magic@ =~= pack_magic());
    push_bytes(out, &magic);
    push_be32(out, 2);
    push_be32(out, (n as u64 % 0x1_0000_0000) as u32);
    proof {
        lemma_be32_low(n as nat);
    }
    assert(out@ =~= old(out)@ + (pack_magic() + be32_bytes(2) + be32_bytes(n as nat)));
}

/// The objects among the first `k` that a pack holds, whole or as deltas within it.
pub open spec fn held(objects: Seq<ObjectView>, bases: Seq<ObjectView>, k: nat) -> Seq<ObjectView>
    decreases k,
{
    if k == 0 {
        Seq::empty()
    } else if stored(objects, bases, k - 1) is OnBase {
        held(objects, bases, (k - 1) as nat)
    } else {
        held(objects, bases, (k - 1) as nat).push(objects[k - 1])
    }
}

/// The deltas against bases among the first `k` objects of a pack, under the names of the
/// bases.
pub open spec fn base_deltas(
    objects: Seq<ObjectView>,
    bases: Seq<ObjectView>,
    k: nat,
) -> Seq<DeltaView>
    decreases k,
{
    if k == 0 {
        Seq::empty()
    } else {
        match stored(objects, bases, k - 1) {
            Stored::OnBase(j, delta) => base_deltas(objects, bases, (k - 1) as nat).push(
                DeltaView { base: hex_text(object_name(bases[j])), delta },
            ),
            _ => base_deltas(objects, bases, (k - 1) as nat),
        }
    }
}

/// Whether no object is stored against one that is itself stored against a base.
pub open spec fn resolvable(objects: Seq<ObjectView>, bases: Seq<ObjectView>) -> bool {
    forall|k: int|
        0 < k < objects.len() && (#[trigger] stored(objects, bases, k)) is OnPrevious ==> !(stored(
            objects,
            bases,
            k - 1,
        ) is OnBase)
}

/// Whether offsets into any of these objects can be written in a delta.
pub open spec fn within_offsets(objects: Seq<ObjectView>) -> bool {
    forall|k: int| 0 <= k < objects.len() ==> (#[trigger] objects[k]).data.len() <= 0x1_0000_0000
}

/// Whether each of these objects fits in memory.
spec fn in_memory(objects: Seq<ObjectView>) -> bool {
    forall|k: int| 0 <= k < objects.len() ==> (#[trigger] objects[k]).data.len() <= usize::MAX
}

/// The entry at `k` of a pack.
#[verifier::opaque]
spec fn entry_view(objects: Seq<ObjectView>, bases: Seq<ObjectView>, k: int) -> EntryView {
    match stored(objects, bases, k) {
        Stored::Whole => EntryView::Object(objects[k]),
        Stored::OnBase(j, delta) => EntryView::Named(
            DeltaView { base: hex_text(object_name(bases[j])), delta },
        ),
        Stored::OnPrevious(delta) => EntryView::Back(
            pack_prefix(objects, bases, (k - 1) as nat).len() as int,
            delta,
        ),
    }
}

/// Whether the compressed data and the base name of the entry at `k` read back.
spec fn entry_sound(objects: Seq<ObjectView>, bases: Seq<ObjectView>, k: int) -> bool {
    let form = stored(objects, bases, k);
    &&& reads_back(payload(form, objects[k]))
    &&& form matches Stored::OnBase(j, _) ==> object_name(bases[j]).len() == 20
}

proof fn lemma_prefix_grows(objects: Seq<ObjectView>, bases: Seq<ObjectView>, k: nat)
    ensures
        pack_prefix(objects, bases, k).len() < pack_prefix(objects, bases, k + 1).len(),
        pack_prefix(objects, bases, k + 1).take(pack_prefix(objects, bases, k).len() as int)
            == pack_prefix(objects, bases, k),
{
    reveal_with_fuel(pack_prefix, 2);
    let a = pack_prefix(objects, bases, k);
    let b = pack_prefix(objects, bases, k + 1);
    assert(b.take(a.len() as int) =~= a);
}

/// The head of an object that is stored whole reads back.
pub(crate) proof fn lemma_whole_head(before: Seq<u8>, kind: Seq<char>, len: nat, tail: Seq<u8>)
    requires
        known_type(kind),
    ensures
        read_head(before + entry_header(type_bits(kind) as nat, len) + tail, before.len() as int)
            == Outcome::Done(
            (
                EntryHead::Object(kind),
                (before.len() + entry_header(type_bits(kind) as nat, len).len()) as int,
            ),
        ),
{
    let header = entry_header(type_bits(kind) as nat, len);
    let data = before + header + tail;
    let pos = before.len() as int;
    type_bits_read_back(kind, 0);
    entry_header_reads_back(type_bits(kind) as nat, len, tail);
    assert(data.skip(pos) =~= header + tail);
    assert(data[pos] == header[0]);
}

/// The head of a delta against a base reads back.
proof fn lemma_named_head(before: Seq<u8>, name: Seq<u8>, len: nat, tail: Seq<u8>)
    requires
        name.len() == 20,
    ensures
        read_head(before + (entry_header(7, len) + name) + tail, before.len() as int) == Outcome::Done(
            (EntryHead::Named(name), (before.len() + entry_header(7, len).len() + 20) as int),
        ),
{
    let header = entry_header(7, len);
    let data = before + (header + name) + tail;
    let pos = before.len() as int;
    entry_header_reads_back(7, len, name + tail);
    assert(data.skip(pos) =~= header + (name + tail));
    assert(data[pos] == header[0]);
    assert(data.subrange(pos + header.len(), pos + header.len() + 20) =~= name);
}

/// The head of a delta against an earlier entry reads back.
proof fn lemma_back_head(before: Seq<u8>, distance: nat, len: nat, tail: Seq<u8>)
    requires
        distance <= u64::MAX,
    ensures
        read_head(before + (entry_header(6, len) + distance_bytes(distance)) + tail, before.len() as int)
            == Outcome::Done(
            (
                EntryHead::Back(distance as u64),
                (before.len() + entry_header(6, len).len() + distance_bytes(distance).len()) as int,
            ),
        ),
{
    let header = entry_header(6, len);
    let bytes = distance_bytes(distance);
    let data = before + (header + bytes) + tail;
    let pos = before.len() as int;
    entry_header_reads_back(6, len, bytes + tail);
    assert(data.skip(pos) =~= header + (bytes + tail));
    assert(data[pos] == header[0]);
    distance_reads_back(distance, tail);
    assert(data.skip(pos + header.len()) =~= bytes + tail);
}

/// An entry that stores an object whole is read as that object: its header tells the type, and
/// its stream the content, wherever it stands and whatever follows it.
pub proof fn whole_entry_is_read(
    front: Seq<u8>,
    o: ObjectView,
    size: nat,
    stream: Seq<u8>,
    rest: Seq<u8>,
)
    requires
        known_type(o.kind),
        inflated(stream + rest) == Ok::<(Seq<u8>, nat), Seq<char>>((o.data, stream.len())),
    ensures
        ({
            let head = entry_header(type_bits(o.kind) as nat, size);
            read_entry(front + head + stream + rest, front.len() as int) == Outcome::Done(
                (EntryView::Object(o), (front.len() + head.len() + stream.len()) as int),
            )
        }),
{
    let head = entry_header(type_bits(o.kind) as nat, size);
    let data = front + head + stream + rest;
    assert(data =~= front + head + (stream + rest));
    lemma_whole_head(front, o.kind, size, stream + rest);
    assert(data.skip((front.len() + head.len()) as int) =~= stream + rest);
    assert(ObjectView { kind: o.kind, data: o.data } =~= o);
}

/// An entry that is a delta against an object elsewhere is read as that: the name of the object
/// comes behind its header.
pub proof fn named_entry_is_read(
    front: Seq<u8>,
    name: Seq<u8>,
    delta: Seq<u8>,
    size: nat,
    stream: Seq<u8>,
    rest: Seq<u8>,
)
    requires
        name.len() == 20,
        inflated(stream + rest) == Ok::<(Seq<u8>, nat), Seq<char>>((delta, stream.len())),
    ensures
        ({
            let head = entry_header(7, size) + name;
            read_entry(front + head + stream + rest, front.len() as int) == Outcome::Done(
                (
                    EntryView::Named(DeltaView { base: hex_text(name), delta }),
                    (front.len() + head.len() + stream.len()) as int,
                ),
            )
        }),
{
    let head = entry_header(7, size) + name;
    let data = front + head + stream + rest;
    assert(data =~= front + head + (stream + rest));
    lemma_named_head(front, name, size, stream + rest);
    assert(data.skip((front.len() + head.len()) as int) =~= stream + rest);
}

/// An entry that is a delta against an entry of the pack is read as that: how far back the other
/// starts comes behind its header.
pub proof fn back_entry_is_read(
    front: Seq<u8>,
    distance: nat,
    delta: Seq<u8>,
    size: nat,
    stream: Seq<u8>,
    rest: Seq<u8>,
)
    requires
        distance <= front.len() <= usize::MAX,
        inflated(stream + rest) == Ok::<(Seq<u8>, nat), Seq<char>>((delta, stream.len())),
    ensures
        ({
            let head = entry_header(6, size) + distance_bytes(distance);
            read_entry(front + head + stream + rest, front.len() as int) == Outcome::Done(
                (
                    EntryView::Back(front.len() - distance, delta),
                    (front.len() + head.len() + stream.len()) as int,
                ),
            )
        }),
{
    let head = entry_header(6, size) + distance_bytes(distance);
    let data = front + head + stream + rest;
    assert(data =~= front + head + (stream + rest));
    lemma_back_head(front, distance, size, stream + rest);
    assert(data.skip((front.len() + head.len()) as int) =~= stream + rest);
}

/// The entry at `k` reads back.
proof fn lemma_entry_reads_back(
    objects: Seq<ObjectView>,
    bases: Seq<ObjectView>,
    k: nat,
    rest: Seq<u8>,
)
    requires
        k < objects.len(),
        entry_sound(objects, bases, k as int),
        stored(objects, bases, k as int) is Whole ==> known_type(objects[k as int].kind),
        pack_prefix(objects, bases, k + 1).len() <= usize::MAX,
    ensures
        read_entry(
            pack_prefix(objects, bases, k + 1) + rest,
            pack_prefix(objects, bases, k).len() as int,
        ) == Outcome::Done(
            (entry_view(objects, bases, k as int), pack_prefix(objects, bases, k + 1).len() as int),
        ),
{
    reveal_with_fuel(pack_prefix, 2);
    reveal(entry_view);
    let form = stored(objects, bases, k as int);
    let o = objects[k as int];
    let before = pack_prefix(objects, bases, k);
    let distance = entry_distance(objects, bases, k);
    let start = entry_start(form, o, bases, distance);
    let bytes = payload(form, o);
    let body = deflated(bytes);
    let data = pack_prefix(objects, bases, k + 1) + rest;
    let pos = before.len() as int;
    let at = pos + start.len();
    assert(data == before + start + (body + rest)) by {
        assert(data =~= before + start + (body + rest));
    }
    assert(inflated(data.skip(at)) == Ok::<(Seq<u8>, nat), Seq<char>>((bytes, body.len()))) by {
        assert(data.skip(at) =~= body + rest);
    }
    assert(at + body.len() == pack_prefix(objects, bases, k + 1).len());
    match form {
        Stored::Whole => {
            lemma_whole_head(before, o.kind, o.data.len(), body + rest);
        },
        Stored::OnBase(j, d) => {
            lemma_named_head(before, object_name(bases[j]), d.len(), body + rest);
        },
        Stored::OnPrevious(d) => {
            assert(k > 0) by {
                reveal(stored);
            }
            lemma_prefix_grows(objects, bases, (k - 1) as nat);
            assert(distance <= pos && pos <= usize::MAX);
            lemma_back_head(before, distance, d.len(), body + rest);
        },
    }
}

/// The entries of a pack with the positions at which they start.
spec fn all_entries(objects: Seq<ObjectView>, bases: Seq<ObjectView>) -> Seq<(int, EntryView)> {
    Seq::new(
        objects.len(),
        |k: int|
            (pack_prefix(objects, bases, k as nat).len() as int, entry_view(objects, bases, k)),
    )
}

proof fn lemma_prefix_of(objects: Seq<ObjectView>, bases: Seq<ObjectView>, k: nat, n: nat)
    requires
        k <= n,
    ensures
        pack_prefix(objects, bases, k).len() <= pack_prefix(objects, bases, n).len(),
        pack_prefix(objects, bases, n).take(pack_prefix(objects, bases, k).len() as int) == pack_prefix(
            objects,
            bases,
            k,
        ),
    decreases n - k,
{
    let (a, c) = (pack_prefix(objects, bases, k), pack_prefix(objects, bases, n));
    if k < n {
        lemma_prefix_grows(objects, bases, k);
        lemma_prefix_of(objects, bases, k + 1, n);
        let b = pack_prefix(objects, bases, k + 1);
        assert(c.take(a.len() as int) =~= b.take(a.len() as int));
    } else {
        assert(c.take(a.len() as int) =~= a);
    }
}

/// The entries of a pack read back.
proof fn lemma_scan(objects: Seq<ObjectView>, bases: Seq<ObjectView>, k: nat, tail: Seq<u8>)
    requires
        k <= objects.len(),
        storable(objects, bases),
        forall|j: int| 0 <= j < objects.len() ==> #[trigger] entry_sound(objects, bases, j),
        pack_prefix(objects, bases, objects.len()).len() <= usize::MAX,
    ensures
        scan(
            pack_prefix(objects, bases, objects.len()) + tail,
            pack_prefix(objects, bases, k).len() as int,
            (objects.len() - k) as nat,
            all_entries(objects, bases).take(k as int),
        ) == Outcome::Done(all_entries(objects, bases)),
    decreases objects.len() - k,
{
    let n = objects.len();
    let all = all_entries(objects, bases);
    if k == n {
        assert(all.take(k as int) =~= all);
    } else {
        let whole = pack_prefix(objects, bases, n);
        let next = pack_prefix(objects, bases, k + 1);
        lemma_prefix_of(objects, bases, k + 1, n);
        let rest = whole.skip(next.len() as int) + tail;
        assert(whole + tail =~= next + rest) by {
            assert(whole =~= whole.take(next.len() as int) + whole.skip(next.len() as int));
        }
        assert(entry_sound(objects, bases, k as int));
        assert(objects[k as int] == objects[k as int]);
        lemma_entry_reads_back(objects, bases, k, rest);
        lemma_scan(objects, bases, k + 1, tail);
        assert(all.take(k as int).push(all[k as int]) =~= all.take(k as int + 1));
    }
}

/// The objects that the entries of a pack stand for.
spec fn all_resolved(objects: Seq<ObjectView>, bases: Seq<ObjectView>) -> Seq<Option<ObjectView>> {
    Seq::new(
        objects.len(),
        |k: int|
            if stored(objects, bases, k) is OnBase {
                None
            } else {
                Some(objects[k])
            },
    )
}

/// A delta against the entry before it resolves to its object.
proof fn lemma_resolve_previous(objects: Seq<ObjectView>, bases: Seq<ObjectView>, i: int)
    requires
        0 <= i < objects.len(),
        stored(objects, bases, i) is OnPrevious,
        resolvable(objects, bases),
        within_offsets(objects),
        in_memory(objects),
    ensures
        resolve_back(
            all_entries(objects, bases).take(i),
            all_resolved(objects, bases).take(i),
            all_entries(objects, bases)[i].0,
            pack_prefix(objects, bases, (i - 1) as nat).len() as int,
            stored(objects, bases, i)->OnPrevious_0,
        ) == Outcome::Done(objects[i]),
{
    reveal(stored);
    let before = all_entries(objects, bases).take(i);
    let done = all_resolved(objects, bases).take(i);
    let (base, o) = (objects[i - 1], objects[i]);
    lemma_prefix_grows(objects, bases, (i - 1) as nat);
    assert(before.last() == all_entries(objects, bases)[i - 1]);
    assert(starting_at(before, before.last().0) == Some(i - 1));
    assert(done[i - 1] == Some(base));
    assert(stored(objects, bases, i)->OnPrevious_0 == delta_bytes(base.data, o.data));
    delta_rebuilds_target(base.data, o.data);
    assert(ObjectView { kind: base.kind, data: o.data } =~= o);
}

/// The entries of a pack resolve to its objects.
proof fn lemma_resolve(objects: Seq<ObjectView>, bases: Seq<ObjectView>, k: nat)
    requires
        k <= objects.len(),
        resolvable(objects, bases),
        within_offsets(objects),
        in_memory(objects),
    ensures
        resolve(all_entries(objects, bases), k) == Outcome::Done(
            all_resolved(objects, bases).take(k as int),
        ),
        resolved_objects(all_resolved(objects, bases).take(k as int)) == held(objects, bases, k),
        named_deltas(all_entries(objects, bases).take(k as int)) == base_deltas(objects, bases, k),
    decreases k,
{
    let all = all_entries(objects, bases);
    let done = all_resolved(objects, bases);
    if k == 0 {
        assert(done.take(0) =~= Seq::empty());
        assert(all.take(0) =~= Seq::empty());
    } else {
        let i = k - 1;
        let form = stored(objects, bases, i);
        reveal(entry_view);
        lemma_resolve(objects, bases, i as nat);
        assert(done.take(k as int).drop_last() =~= done.take(i));
        assert(all.take(k as int).drop_last() =~= all.take(i));
        assert(done.take(i).push(done[i]) =~= done.take(k as int));
        assert(all.take(k as int).last() == all[i]);
        assert(done.take(k as int).last() == done[i]);
        if form is OnPrevious {
            lemma_resolve_previous(objects, bases, i);
        }
    }
}

/// A pack whose compressed data read back holds what was packed.
proof fn lemma_pack_reads_back(objects: Seq<ObjectView>, bases: Seq<ObjectView>)
    requires
        objects.len() <= u32::MAX,
        storable(objects, bases),
        resolvable(objects, bases),
        within_offsets(objects),
        in_memory(objects),
        forall|j: int| 0 <= j < objects.len() ==> #[trigger] entry_sound(objects, bases, j),
        pack_prefix(objects, bases, objects.len()).len() <= usize::MAX,
    ensures
        parse_outcome(pack_bytes(objects, bases)) == Outcome::Done(
            PackView {
                objects: held(objects, bases, objects.len()),
                deltas: base_deltas(objects, bases, objects.len()),
            },
        ),
{
    let n = objects.len();
    let whole = pack_prefix(objects, bases, n);
    let data = pack_bytes(objects, bases);
    let first = pack_prefix(objects, bases, 0);
    lemma_prefix_of(objects, bases, 0, n);
    assert(first =~= pack_magic() + be32_bytes(2) + be32_bytes(n)) by {
        reveal_with_fuel(pack_prefix, 1);
    }
    assert forall|j: int| 0 <= j < 12 implies data[j] == first[j] by {
        assert(whole.take(12)[j] == first[j]);
    }
    assert(data.take(4) =~= pack_magic());
    lemma_be32_reads_back(n);
    lemma_be32_reads_back(2);
    assert(be32(data, 4) == be32(be32_bytes(2), 0));
    assert(be32(data, 8) == be32(be32_bytes(n), 0));
    assert(header_refusal(data) is None);
    let all = all_entries(objects, bases);
    assert(all.take(0) =~= Seq::empty());
    lemma_scan(objects, bases, 0, sha1_of(whole));
    lemma_resolve(objects, bases, n);
    assert(all.take(n as int) =~= all);
    assert(all_resolved(objects, bases).take(n as int) =~= all_resolved(objects, bases));
}

pub(crate) proof fn lemma_be32_reads_back(n: nat)
    requires
        n <= u32::MAX,
    ensures
        be32(be32_bytes(n), 0) == n,
{
}

/// The best base for an object is one of its type, and the delta is that against it.
proof fn lemma_best_base(bases: Seq<ObjectView>, o: ObjectView, n: nat)
    requires
        n <= bases.len(),
    ensures
        best_base(bases, o, n) matches Some((j, d)) ==> 0 <= j < n && bases[j].kind == o.kind && d
            == delta_bytes(bases[j].data, o.data) && base_worth(d.len(), o.data.len()),
    decreases n,
{
    if n > 0 {
        lemma_best_base(bases, o, (n - 1) as nat);
    }
}

proof fn lemma_best_is_shortest(bases: Seq<ObjectView>, o: ObjectView, n: nat, i: int)
    requires
        n <= bases.len(),
        0 <= i < n,
        bases[i].kind == o.kind,
        delta_bytes(bases[i].data, o.data).len() < o.data.len() * 9 / 10,
    ensures
        best_base(bases, o, n) matches Some((j, d)) && d.len() <= delta_bytes(
            bases[i].data,
            o.data,
        ).len() && (d.len() == delta_bytes(bases[i].data, o.data).len() ==> j <= i),
    decreases n,
{
    lemma_best_base(bases, o, (n - 1) as nat);
    if i < n - 1 {
        lemma_best_is_shortest(bases, o, (n - 1) as nat, i);
    }
}

/// How an object is stored. As a delta against a base, it is the first of the shortest against
/// bases of its type, saves a tenth, and is no longer than that against the object before it. As
/// a delta against the object before it, which is of its type, it is shorter than the object and
/// than each against a base of its type that saves a tenth. Whole, neither kind of delta will do.
pub proof fn shortest_form_is_stored(
    objects: Seq<ObjectView>,
    bases: Seq<ObjectView>,
    k: int,
    i: int,
)
    requires
        0 <= k < objects.len(),
        0 <= i < bases.len(),
    ensures
        ({
            let o = objects[k];
            let size = o.data.len();
            let other = delta_bytes(bases[i].data, o.data).len();
            let last = delta_bytes(objects[k - 1].data, o.data);
            let follows = k > 0 && objects[k - 1].kind == o.kind;
            match stored(objects, bases, k) {
                Stored::Whole => {
                    &&& bases[i].kind == o.kind ==> other >= size * 9 / 10
                    &&& follows ==> last.len() >= size
                },
                Stored::OnBase(j, d) => {
                    &&& 0 <= j < bases.len() && bases[j].kind == o.kind
                    &&& d == delta_bytes(bases[j].data, o.data) && d.len() < size * 9 / 10
                    &&& bases[i].kind == o.kind ==> d.len() <= other && (d.len() == other ==> j <= i)
                    &&& follows ==> d.len() <= last.len()
                },
                Stored::OnPrevious(d) => {
                    &&& follows && d == last && d.len() < size
                    &&& bases[i].kind == o.kind && other < size * 9 / 10 ==> d.len() < other
                },
            }
        }),
{
    reveal(stored);
    let o = objects[k];
    lemma_best_base(bases, o, bases.len());
    if bases[i].kind == o.kind && delta_bytes(bases[i].data, o.data).len() < o.data.len() * 9 / 10 {
        lemma_best_is_shortest(bases, o, bases.len(), i);
    }
}

/// Without bases an object is stored as a delta against that before it just when that is of its
/// type and the delta is shorter than the object.
pub proof fn shorter_delta_is_stored(objects: Seq<ObjectView>, k: int)
    requires
        0 <= k < objects.len(),
    ensures
        stored(objects, Seq::empty(), k) == (if k > 0 && objects[k - 1].kind == objects[k].kind
            && delta_bytes(objects[k - 1].data, objects[k].data).len() < objects[k].data.len() {
            Stored::OnPrevious(delta_bytes(objects[k - 1].data, objects[k].data))
        } else {
            Stored::Whole
        }),
{
    reveal(stored);
}

/// A pack starts with its four letters, the version 2 and the number of its objects, and ends in
/// the digest of all that comes before it. Behind that of the object before it, each object has
/// its entry: its type and the length of what is compressed, what its base is, and the compressed
/// data.
pub proof fn pack_has_these_parts(objects: Seq<ObjectView>, bases: Seq<ObjectView>, k: int)
    requires
        0 <= k < objects.len(),
    ensures
        pack_prefix(objects, bases, 0) == seq![0x50u8, 0x41, 0x43, 0x4b, 0, 0, 0, 2] + be32_bytes(
            objects.len(),
        ),
        pack_bytes(objects, bases) == pack_prefix(objects, bases, objects.len()) + sha1_of(
            pack_prefix(objects, bases, objects.len()),
        ),
        ({
            let front = pack_prefix(objects, bases, k as nat);
            let o = objects[k];
            pack_prefix(objects, bases, (k + 1) as nat) == front + (match stored(objects, bases, k) {
                Stored::Whole => entry_header(type_bits(o.kind) as nat, o.data.len()) + deflated(
                    o.data,
                ),
                Stored::OnBase(j, d) => entry_header(7, d.len()) + object_name(bases[j]) + deflated(d),
                Stored::OnPrevious(d) => entry_header(6, d.len()) + distance_bytes(
                    (front.len() - pack_prefix(objects, bases, (k - 1) as nat).len()) as nat,
                ) + deflated(d),
            })
        }),
{
    reveal(stored);
    reveal_with_fuel(pack_prefix, 2);
    assert(pack_magic() + be32_bytes(2) =~= seq![0x50u8, 0x41, 0x43, 0x4b, 0, 0, 0, 2]);
    let front = pack_prefix(objects, bases, k as nat);
    let o = objects[k];
    let form = stored(objects, bases, k);
    let start = entry_start(form, o, bases, entry_distance(objects, bases, k as nat));
    assert(front + start + deflated(payload(form, o)) =~= front + (start + deflated(
        payload(form, o),
    )));
}

/// The number of objects in a pack reads back.
pub proof fn count_reads_back(n: u32)
    ensures
        be32_bytes(n as nat).len() == 4,
        be32_bytes(n as nat)[0] * 0x100_0000 + be32_bytes(n as nat)[1] * 0x1_0000 + be32_bytes(
            n as nat,
        )[2] * 0x100 + be32_bytes(n as nat)[3] == n,
{
    lemma_be32_reads_back(n as nat);
}

/// A delta that is stored against a base rebuilds its object from that base, has the base's
/// type, and is shorter than nine tenths of the object.
pub proof fn base_delta_rebuilds(objects: Seq<ObjectView>, bases: Seq<ObjectView>, k: int)
    requires
        0 <= k < objects.len(),
        stored(objects, bases, k) is OnBase,
        within_offsets(bases),
        objects[k].data.len() <= usize::MAX,
    ensures
        stored(objects, bases, k) matches Stored::OnBase(j, d) && 0 <= j < bases.len() && bases[j].kind
            == objects[k].kind && delta_outcome(bases[j].data, d) == Outcome::Done(objects[k].data)
            && base_worth(d.len(), objects[k].data.len()),
{
    reveal(stored);
    lemma_best_base(bases, objects[k], bases.len());
    let j = stored(objects, bases, k)->OnBase_0;
    assert(bases[j].data.len() <= 0x1_0000_0000);
    delta_rebuilds_target(bases[j].data, objects[k].data);
}

/// Without bases a pack holds all of its objects.
proof fn lemma_no_bases(objects: Seq<ObjectView>, k: nat)
    requires
        k <= objects.len(),
    ensures
        held(objects, Seq::empty(), k) == objects.take(k as int),
        base_deltas(objects, Seq::empty(), k) == Seq::<DeltaView>::empty(),
        forall|i: int| !(#[trigger] stored(objects, Seq::empty(), i) is OnBase),
    decreases k,
{
    reveal(stored);
    if k > 0 {
        lemma_no_bases(objects, (k - 1) as nat);
        assert(objects.take(k - 1).push(objects[k - 1]) =~= objects.take(k as int));
    } else {
        assert(objects.take(0) =~= Seq::empty());
    }
}

/// An entry of a pack, its data being compressed already.
pub fn encode_entry(
    form: &Form,
    o: &PackObject,
    base_name: &[u8],
    distance: usize,
    compressed: &[u8],
) -> (r: Vec<u8>)
    requires
        form@ is Whole ==> known_type(o@.kind),
    ensures
        r@ == start_bytes(form@, o@, base_name@, distance as nat) + compressed@,
{
    let mut out: Vec<u8> = Vec::new();
    match form {
        Form::Whole => {
            encode_pack_header(&mut out, type_to_bits(o.obj_type.as_str()), o.data.len() as u64);
        },
        Form::OnBase(_, delta) => {
            encode_pack_header(&mut out, 7, delta.len() as u64);
            push_bytes(&mut out, base_name);
        },
        Form::OnPrevious(delta) => {
            encode_pack_header(&mut out, 6, delta.len() as u64);
            encode_ofs_offset(&mut out, distance as u64);
        },
    }
    assert(out@ =~= start_bytes(form@, o@, base_name@, distance as nat));
    push_bytes(&mut out, compressed);
    out
}

/// Appends an entry.
fn push_entry(out: &mut Vec<u8>, form: &Form, o: &PackObject, bases: &[PackObject], distance: usize)
    requires
        form@ is Whole ==> known_type(o@.kind),
        form matches Form::OnBase(j, _) ==> j < bases.len(),
    ensures
        final(out)@ == old(out)@ + entry_start(form@, o@, object_views(bases@), distance as nat)
            + deflated(payload(form@, o@)),
        reads_back(payload(form@, o@)),
        form@ matches Stored::OnBase(j, _) ==> object_name(object_views(bases@)[j]).len() == 20,
{
    let compressed = match form {
        Form::Whole => zlib_compress(&o.data),
        Form::OnBase(_, delta) => zlib_compress(delta),
        Form::OnPrevious(delta) => zlib_compress(delta),
    };
    let name = match form {
        Form::OnBase(j, _) => bases[*j].name(),
        _ => Vec::new(),
    };
    assert(name@ =~= base_name(form@, object_views(bases@)));
    let entry = encode_entry(form, o, &name, distance, &compressed);
    push_bytes(out, &entry);
    assert(out@ =~= old(out)@ + entry_start(form@, o@, object_views(bases@), distance as nat)
        + deflated(payload(form@, o@)));
}

/// The order in which objects are packed lists them.
proof fn lemma_lists(objects: Seq<PackObject>, order: Seq<usize>)
    requires
        places(order) == pack_order(object_views(objects)),
        order.len() == objects.len(),
        forall|k: int| 0 <= k < order.len() ==> (#[trigger] order[k]) < objects.len(),
    ensures
        lists(objects, order, in_pack_order(object_views(objects))),
        in_pack_order(object_views(objects)).len() == objects.len(),
{
    let views = object_views(objects);
    let sorted = in_pack_order(views);
    pack_order_is_complete(views);
    assert forall|k: int| 0 <= k < order.len() implies (#[trigger] order[k]) < objects.len() && sorted[k]
        == objects[order[k] as int]@ by {
        assert(places(order)[k] == order[k] as int);
    }
}

/// What holds of all objects holds of them in the order of the pack.
proof fn lemma_in_order(objects: Seq<PackObject>)
    ensures
        in_pack_order(object_views(objects)).len() == objects.len(),
        in_memory(in_pack_order(object_views(objects))),
        within_offsets(object_views(objects)) ==> within_offsets(
            in_pack_order(object_views(objects)),
        ),
{
    let views = object_views(objects);
    let sorted = in_pack_order(views);
    pack_order_is_complete(views);
    assert forall|k: int| 0 <= k < sorted.len() implies (#[trigger] sorted[k]).data.len()
        <= usize::MAX by {
        let o = objects[pack_order(views)[k]];
        assert(sorted[k] == o@);
        assert(o.data.len() <= usize::MAX);
    }
    if within_offsets(views) {
        assert forall|k: int| 0 <= k < sorted.len() implies (#[trigger] sorted[k]).data.len()
            <= 0x1_0000_0000 by {
            assert(sorted[k] == views[pack_order(views)[k]]);
        }
    }
}

/// An object's place among those that are packed, and how it is stored.
#[derive(Debug)]
pub struct PlannedEntry {
    /// The place.
    pub place: usize,
    /// How it is stored.
    pub form: Form,
}

/// Whether a plan says of each object where it is and how it is stored.
pub open spec fn is_plan(
    plan: Seq<PlannedEntry>,
    objects: Seq<ObjectView>,
    bases: Seq<ObjectView>,
) -> bool {
    &&& plan.len() == objects.len()
    &&& forall|k: int|
        0 <= k < plan.len() ==> {
            &&& (#[trigger] plan[k]).place == pack_order(objects)[k]
            &&& plan[k].form@ == stored(in_pack_order(objects), bases, k)
            &&& plan[k].form matches Form::OnBase(j, _) ==> j < bases.len()
        }
}

/// Plans a pack: the order of its objects, and how each is stored.
pub fn plan_pack(objects: &[PackObject], base_objects: &[PackObject]) -> (r: Vec<PlannedEntry>)
    ensures
        is_plan(r@, object_views(objects@), object_views(base_objects@)),
{
    let ghost views = object_views(objects@);
    let ghost sorted = in_pack_order(views);
    let ghost bases = object_views(base_objects@);
    let order = sorted_indices(objects);
    proof {
        lemma_lists(objects@, order@);
    }
    let mut plan: Vec<PlannedEntry> = Vec::new();
    let mut k: usize = 0;
    while k < order.len()
        invariant
            k <= order.len(),
            order@.len() == objects@.len() == sorted.len(),
            bases == object_views(base_objects@),
            lists(objects@, order@, sorted),
            places(order@) == pack_order(views),
            plan@.len() == k,
            forall|j: int|
                0 <= j < k ==> {
                    &&& (#[trigger] plan@[j]).place == pack_order(views)[j]
                    &&& plan@[j].form@ == stored(sorted, bases, j)
                    &&& plan@[j].form matches Form::OnBase(b, _) ==> b < bases.len()
                },
        decreases order.len() - k,
    {
        let form = choose_form(objects, &order, base_objects, k, Ghost(sorted));
        assert(places(order@)[k as int] == order@[k as int] as int);
        plan.push(PlannedEntry { place: order[k], form });
        k += 1;
    }
    plan
}

/// Whether these objects can be packed against these bases.
pub fn is_storable(objects: &[PackObject], base_objects: &[PackObject]) -> (r: bool)
    ensures
        r == storable(in_pack_order(object_views(objects@)), object_views(base_objects@)),
{
    let ghost views = object_views(objects@);
    let ghost sorted = in_pack_order(views);
    let ghost bases = object_views(base_objects@);
    let plan = plan_pack(objects, base_objects);
    proof {
        pack_order_is_complete(views);
    }
    let mut k: usize = 0;
    while k < plan.len()
        invariant
            k <= plan.len(),
            views == object_views(objects@),
            sorted == in_pack_order(views),
            sorted.len() == views.len(),
            bases == object_views(base_objects@),
            is_plan(plan@, views, bases),
            forall|i: int|
                0 <= i < views.len() ==> 0 <= #[trigger] pack_order(views)[i] < views.len(),
            forall|j: int|
                0 <= j < k && stored(sorted, bases, j) is Whole ==> known_type(
                    (#[trigger] sorted[j]).kind,
                ),
        decreases plan.len() - k,
    {
        let entry = &plan[k];
        assert(0 <= pack_order(views)[k as int] < views.len());
        let o = &objects[entry.place];
        assert(sorted[k as int] == o@);
        if let Form::Whole = entry.form {
            if !is_known_type(o.obj_type.as_str()) {
                assert(stored(sorted, bases, k as int) is Whole && !known_type(
                    sorted[k as int].kind,
                ));
                return false;
            }
        }
        k += 1;
    }
    true
}

/// A pack up to the end of its entries.
fn push_entries(
    objects: &[PackObject],
    plan: &Vec<PlannedEntry>,
    base_objects: &[PackObject],
) -> (out: Vec<u8>)
    requires
        is_plan(plan@, object_views(objects@), object_views(base_objects@)),
        storable(in_pack_order(object_views(objects@)), object_views(base_objects@)),
    ensures
        out@ == pack_prefix(
            in_pack_order(object_views(objects@)),
            object_views(base_objects@),
            objects@.len(),
        ),
        forall|j: int|
            0 <= j < objects@.len() ==> #[trigger] entry_sound(
                in_pack_order(object_views(objects@)),
                object_views(base_objects@),
                j,
            ),
{
    let ghost views = object_views(objects@);
    let ghost sorted = in_pack_order(views);
    let ghost bases = object_views(base_objects@);
    proof {
        pack_order_is_complete(views);
    }
    let n: usize = plan.len();
    let mut out: Vec<u8> = Vec::new();
    push_pack_start(&mut out, n);
    assert(out@ =~= pack_prefix(sorted, bases, 0)) by {
        reveal_with_fuel(pack_prefix, 1);
    }
    let mut previous: usize = out.len();
    let mut k: usize = 0;
    while k < n
        invariant
            k <= n,
            n == plan@.len() == sorted.len() == views.len(),
            views == object_views(objects@),
            sorted == in_pack_order(views),
            bases == object_views(base_objects@),
            is_plan(plan@, views, bases),
            storable(sorted, bases),
            forall|i: int|
                0 <= i < views.len() ==> 0 <= #[trigger] pack_order(views)[i] < views.len(),
            out@ == pack_prefix(sorted, bases, k as nat),
            previous <= out@.len(),
            out@.len() - previous == entry_distance(sorted, bases, k as nat),
            forall|j: int| 0 <= j < k ==> #[trigger] entry_sound(sorted, bases, j),
        decreases n - k,
    {
        let entry = &plan[k];
        let start: usize = out.len();
        assert(0 <= pack_order(views)[k as int] < views.len());
        let o = &objects[entry.place];
        assert(sorted[k as int] == o@);
        push_entry(&mut out, &entry.form, o, base_objects, start - previous);
        assert(out@ == pack_prefix(sorted, bases, (k + 1) as nat)) by {
            reveal_with_fuel(pack_prefix, 1);
        }
        previous = start;
        k += 1;
    }
    out
}

/// Builds a pack of objects as deltas against bases that it does not hold, where that saves a
/// tenth, or against each other, where that is shorter still, or whole. Whoever reads it needs
/// the bases.
pub fn build_with_bases(objects: &[PackObject], base_objects: &[PackObject]) -> (r: Vec<u8>)
    requires
        storable(in_pack_order(object_views(objects@)), object_views(base_objects@)),
    ensures
        r@ == pack_bytes(in_pack_order(object_views(objects@)), object_views(base_objects@)),
        r@.len() == pack_prefix(
            in_pack_order(object_views(objects@)),
            object_views(base_objects@),
            objects@.len(),
        ).len() + 20,
        objects@.len() <= u32::MAX && within_offsets(object_views(objects@)) && resolvable(
            in_pack_order(object_views(objects@)),
            object_views(base_objects@),
        ) ==> parse_outcome(r@) == Outcome::Done(
            PackView {
                objects: held(
                    in_pack_order(object_views(objects@)),
                    object_views(base_objects@),
                    objects@.len(),
                ),
                deltas: base_deltas(
                    in_pack_order(object_views(objects@)),
                    object_views(base_objects@),
                    objects@.len(),
                ),
            },
        ),
{
    let ghost sorted = in_pack_order(object_views(objects@));
    let ghost bases = object_views(base_objects@);
    let plan = plan_pack(objects, base_objects);
    let mut out = push_entries(objects, &plan, base_objects);
    assert(out.len() <= usize::MAX);
    proof {
        lemma_in_order(objects@);
        if objects@.len() <= u32::MAX && within_offsets(object_views(objects@)) && resolvable(
            sorted,
            bases,
        ) {
            lemma_pack_reads_back(sorted, bases);
        }
    }
    let digest = sha1_digest(&out);
    push_bytes(&mut out, &digest);
    out
}

/// Builds a pack of objects, as deltas against each other where that is shorter.
pub fn build(objects: &[PackObject]) -> (r: Vec<u8>)
    requires
        all_known(object_views(objects@)),
    ensures
        r@ == pack_bytes(in_pack_order(object_views(objects@)), Seq::empty()),
        r@.len() == pack_prefix(
            in_pack_order(object_views(objects@)),
            Seq::empty(),
            objects@.len(),
        ).len() + 20,
        objects@.len() <= u32::MAX && within_offsets(object_views(objects@)) ==> parse_outcome(r@)
            == Outcome::Done(
            PackView {
                objects: in_pack_order(object_views(objects@)),
                deltas: Seq::empty(),
            },
        ),
{
    let ghost views = object_views(objects@);
    let ghost sorted = in_pack_order(views);
    let none: Vec<PackObject> = Vec::new();
    assert(object_views(none@) =~= Seq::empty());
    proof {
        pack_order_is_complete(views);
        lemma_no_bases(sorted, sorted.len());
        assert(sorted.take(sorted.len() as int) =~= sorted);
        assert forall|k: int| 0 <= k < sorted.len() implies known_type((#[trigger] sorted[k]).kind) by {
            assert(sorted[k] == views[pack_order(views)[k]]);
        }
    }
    build_with_bases(objects, &none)
}

} // verus!
