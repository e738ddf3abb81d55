//! The merging of packs into the objects that they hold together.

use crate::delta::{delta_outcome, run_delta};
use crate::object::{
    all_known, object_name, object_views, DeltaView, ObjectView, PackObject, PackView,
    UnresolvedDelta,
};
use crate::outcome::Outcome;
use crate::packfile::{parse_outcome, parsed_types_are_known, run_parse};
use crate::packing::{base_delta_rebuilds, base_deltas, held, stored, within_offsets, Stored};
use crate::storage::pack_views;
use crate::text::{hex_text, same_text};
use vstd::prelude::*;
use vstd::string::*;

verus! {

/// The last of some objects with this name in hexadecimal.
pub open spec fn last_named(objects: Seq<ObjectView>, sha: Seq<char>) -> Option<int>
    decreases objects.len(),
{
    if objects.len() == 0 {
        None
    } else if hex_text(object_name(objects.last())) == sha {
        Some(objects.len() - 1)
    } else {
        last_named(objects.drop_last(), sha)
    }
}

/// Objects, and behind them those that deltas make of them one after the other. A delta whose
/// base is not there, or that is refused, is passed over.
pub open spec fn with_deltas(
    objects: Seq<ObjectView>,
    deltas: Seq<DeltaView>,
) -> Outcome<Seq<ObjectView>>
    decreases deltas.len(),
{
    if deltas.len() == 0 {
        Outcome::Done(objects)
    } else {
        let rest = deltas.drop_first();
        match last_named(objects, deltas[0].base) {
            None => with_deltas(objects, rest),
            Some(j) => match delta_outcome(objects[j].data, deltas[0].delta) {
                Outcome::Done(bytes) => with_deltas(
                    objects.push(ObjectView { kind: objects[j].kind, data: bytes }),
                    rest,
                ),
                Outcome::Failed(_) => with_deltas(objects, rest),
                Outcome::Broken => Outcome::Broken,
            },
        }
    }
}

/// Objects, and behind them those of packs, with what the deltas of each make of the objects up
/// to then. A pack that is refused is passed over.
pub open spec fn merged(objects: Seq<ObjectView>, packs: Seq<Seq<u8>>) -> Outcome<Seq<ObjectView>>
    decreases packs.len(),
{
    if packs.len() == 0 {
        Outcome::Done(objects)
    } else {
        match parse_outcome(packs[0]) {
            Outcome::Done(p) => match with_deltas(objects + p.objects, p.deltas) {
                Outcome::Done(all) => merged(all, packs.drop_first()),
                other => other,
            },
            Outcome::Failed(_) => merged(objects, packs.drop_first()),
            Outcome::Broken => Outcome::Broken,
        }
    }
}

proof fn lemma_last_named(objects: Seq<ObjectView>, sha: Seq<char>)
    ensures
        last_named(objects, sha) matches Some(j) ==> 0 <= j < objects.len() && hex_text(
            object_name(objects[j]),
        ) == sha,
    decreases objects.len(),
{
    if objects.len() > 0 {
        lemma_last_named(objects.drop_last(), sha);
    }
}

proof fn lemma_deltas_known(objects: Seq<ObjectView>, deltas: Seq<DeltaView>)
    requires
        all_known(objects),
    ensures
        with_deltas(objects, deltas) matches Outcome::Done(all) ==> all_known(all) && objects.len()
            <= all.len() && all.take(objects.len() as int) == objects,
    decreases deltas.len(),
{
    if deltas.len() == 0 {
        assert(objects.take(objects.len() as int) =~= objects);
    } else {
        let rest = deltas.drop_first();
        lemma_last_named(objects, deltas[0].base);
        lemma_deltas_known(objects, rest);
        if let Some(j) = last_named(objects, deltas[0].base) {
            if let Outcome::Done(bytes) = delta_outcome(objects[j].data, deltas[0].delta) {
                let more = objects.push(ObjectView { kind: objects[j].kind, data: bytes });
                lemma_deltas_known(more, rest);
                if let Outcome::Done(all) = with_deltas(more, rest) {
                    assert(all.take(objects.len() as int) =~= all.take(more.len() as int).take(
                        objects.len() as int,
                    ));
                    assert(more.take(objects.len() as int) =~= objects);
                }
            }
        }
    }
}

/// Merging keeps all objects that it started with, first and in their order, and gives objects
/// that can be packed.
pub proof fn merging_keeps_objects(objects: Seq<ObjectView>, packs: Seq<Seq<u8>>)
    requires
        all_known(objects),
    ensures
        merged(objects, packs) matches Outcome::Done(all) ==> all_known(all) && objects.len()
            <= all.len() && all.take(objects.len() as int) == objects,
    decreases packs.len(),
{
    if packs.len() == 0 {
        assert(objects.take(objects.len() as int) =~= objects);
    } else {
        parsed_types_are_known(packs[0]);
        merging_keeps_objects(objects, packs.drop_first());
        if let Outcome::Done(p) = parse_outcome(packs[0]) {
            let start = objects + p.objects;
            assert(all_known(start));
            lemma_deltas_known(start, p.deltas);
            if let Outcome::Done(more) = with_deltas(start, p.deltas) {
                merging_keeps_objects(more, packs.drop_first());
                if let Outcome::Done(all) = merged(more, packs.drop_first()) {
                    let n = objects.len() as int;
                    assert(all.take(n) =~= all.take(more.len() as int).take(n));
                    assert(more.take(n) =~= more.take(start.len() as int).take(n));
                    assert(start.take(n) =~= objects);
                }
            }
        }
    }
}

/// A pack without deltas adds its objects.
pub proof fn merging_adds_objects(objects: Seq<ObjectView>, pack: Seq<u8>)
    requires
        parse_outcome(pack) matches Outcome::Done(p) && p.deltas.len() == 0,
    ensures
        merged(objects, seq![pack]) == Outcome::Done(objects + parse_outcome(pack)->Done_0.objects),
{
    reveal_with_fuel(merged, 2);
    assert(seq![pack].drop_first() =~= Seq::empty());
}

/// Packs are merged one after the other: those that come later are merged into what those before
/// them gave.
pub proof fn merging_goes_on(objects: Seq<ObjectView>, packs: Seq<Seq<u8>>, more: Seq<Seq<u8>>)
    ensures
        merged(objects, packs + more) == (match merged(objects, packs) {
            Outcome::Done(all) => merged(all, more),
            other => other,
        }),
    decreases packs.len(),
{
    if packs.len() == 0 {
        assert(packs + more =~= more);
    } else {
        let rest = packs.drop_first();
        assert((packs + more).drop_first() =~= rest + more);
        merging_goes_on(objects, rest, more);
        if let Outcome::Done(p) = parse_outcome(packs[0]) {
            if let Outcome::Done(all) = with_deltas(objects + p.objects, p.deltas) {
                merging_goes_on(all, rest, more);
            }
        }
    }
}

/// The objects among the first `k` of a pack that are stored as deltas against bases.
pub open spec fn based(objects: Seq<ObjectView>, bases: Seq<ObjectView>, k: nat) -> Seq<ObjectView>
    decreases k,
{
    if k == 0 {
        Seq::empty()
    } else if stored(objects, bases, k - 1) is OnBase {
        based(objects, bases, (k - 1) as nat).push(objects[k - 1])
    } else {
        based(objects, bases, (k - 1) as nat)
    }
}

/// Whether no two different objects among these have the same name.
pub open spec fn no_collisions(objects: Seq<ObjectView>) -> bool {
    forall|i: int, j: int|
        #![trigger objects[i], objects[j]]
        0 <= i < objects.len() && 0 <= j < objects.len() && hex_text(object_name(objects[i]))
            == hex_text(object_name(objects[j])) ==> objects[i] == objects[j]
}

proof fn lemma_delta_last(objects: Seq<ObjectView>, deltas: Seq<DeltaView>, d: DeltaView)
    ensures
        with_deltas(objects, deltas.push(d)) == (match with_deltas(objects, deltas) {
            Outcome::Done(all) => with_deltas(all, seq![d]),
            other => other,
        }),
    decreases deltas.len(),
{
    if deltas.len() == 0 {
        assert(deltas.push(d) =~= seq![d]);
    } else {
        let rest = deltas.drop_first();
        assert(deltas.push(d).drop_first() =~= rest.push(d));
        lemma_delta_last(objects, rest, d);
        if let Some(j) = last_named(objects, deltas[0].base) {
            if let Outcome::Done(bytes) = delta_outcome(objects[j].data, deltas[0].delta) {
                lemma_delta_last(
                    objects.push(ObjectView { kind: objects[j].kind, data: bytes }),
                    rest,
                    d,
                );
            }
        }
    }
}

proof fn lemma_named_is_found(objects: Seq<ObjectView>, i: int)
    requires
        0 <= i < objects.len(),
    ensures
        last_named(objects, hex_text(object_name(objects[i]))) is Some,
    decreases objects.len(),
{
    if i < objects.len() - 1 {
        lemma_named_is_found(objects.drop_last(), i);
    }
}

proof fn lemma_based_within(objects: Seq<ObjectView>, bases: Seq<ObjectView>, k: nat, i: int)
    requires
        k <= objects.len(),
        0 <= i < based(objects, bases, k).len(),
    ensures
        exists|j: int| 0 <= j < k && objects[j] == based(objects, bases, k)[i],
    decreases k,
{
    if k > 0 {
        let before = based(objects, bases, (k - 1) as nat);
        if i < before.len() {
            lemma_based_within(objects, bases, (k - 1) as nat, i);
        } else {
            assert(objects[k - 1] == based(objects, bases, k)[i]);
        }
    }
}

/// The deltas of a thin pack give back the objects that it was built of, where the bases are at
/// hand and names tell objects apart.
pub proof fn thin_pack_is_resolved(
    at_hand: Seq<ObjectView>,
    objects: Seq<ObjectView>,
    bases: Seq<ObjectView>,
    k: nat,
)
    requires
        k <= objects.len(),
        within_offsets(bases),
        forall|i: int| 0 <= i < objects.len() ==> (#[trigger] objects[i]).data.len() <= usize::MAX,
        forall|j: int| 0 <= j < bases.len() ==> at_hand.contains(#[trigger] bases[j]),
        no_collisions(at_hand + objects),
    ensures
        with_deltas(at_hand, base_deltas(objects, bases, k)) == Outcome::Done(
            at_hand + based(objects, bases, k),
        ),
    decreases k,
{
    if k == 0 {
        assert(at_hand + based(objects, bases, k) =~= at_hand);
    } else {
        let before = (k - 1) as nat;
        thin_pack_is_resolved(at_hand, objects, bases, before);
        if let Stored::OnBase(j, delta) = stored(objects, bases, k - 1) {
            base_delta_rebuilds(objects, bases, k - 1);
            let all = at_hand + based(objects, bases, before);
            let d = DeltaView { base: hex_text(object_name(bases[j])), delta };
            lemma_delta_last(at_hand, base_deltas(objects, bases, before), d);
            assert(at_hand.contains(bases[j]));
            let i = choose|i: int| 0 <= i < at_hand.len() && at_hand[i] == bases[j];
            assert(all[i] == bases[j]);
            lemma_named_is_found(all, i);
            lemma_last_named(all, d.base);
            let f = last_named(all, d.base)->0;
            assert(all[f] == bases[j]) by {
                let known = at_hand + objects;
                assert(known[i] == bases[j]);
                if f < at_hand.len() {
                    assert(known[f] == all[f]);
                } else {
                    lemma_based_within(objects, bases, before, f - at_hand.len());
                    let o = choose|o: int|
                        0 <= o < before && objects[o] == based(objects, bases, before)[f
                            - at_hand.len()];
                    assert(known[at_hand.len() + o] == all[f]);
                }
            }
            assert(with_deltas(all, seq![d]) == Outcome::Done(all.push(objects[k - 1]))) by {
                reveal_with_fuel(with_deltas, 2);
                assert(seq![d].drop_first() =~= Seq::empty());
                assert(ObjectView { kind: bases[j].kind, data: objects[k - 1].data } =~= objects[k
                    - 1]);
            }
            assert(all.push(objects[k - 1]) =~= at_hand + based(objects, bases, k));
        }
    }
}

/// What deltas make comes behind the objects that they start from, at most one object each.
pub proof fn deltas_keep_objects(objects: Seq<ObjectView>, deltas: Seq<DeltaView>)
    ensures
        with_deltas(objects, deltas) matches Outcome::Done(all) ==> objects.len() <= all.len()
            <= objects.len() + deltas.len() && all.take(objects.len() as int) == objects,
        !(with_deltas(objects, deltas) is Failed),
    decreases deltas.len(),
{
    if deltas.len() == 0 {
        assert(objects.take(objects.len() as int) =~= objects);
    } else {
        let rest = deltas.drop_first();
        deltas_keep_objects(objects, rest);
        if let Some(j) = last_named(objects, deltas[0].base) {
            if let Outcome::Done(bytes) = delta_outcome(objects[j].data, deltas[0].delta) {
                let more = objects.push(ObjectView { kind: objects[j].kind, data: bytes });
                deltas_keep_objects(more, rest);
                if let Outcome::Done(all) = with_deltas(more, rest) {
                    assert(all.take(objects.len() as int) =~= all.take(more.len() as int).take(
                        objects.len() as int,
                    ));
                    assert(more.take(objects.len() as int) =~= objects);
                }
            }
        }
    }
}

/// A delta whose base is at hand adds the object that it makes of the last such base, which has
/// the type of the base.
pub proof fn delta_is_applied(objects: Seq<ObjectView>, d: DeltaView, j: int, bytes: Seq<u8>)
    requires
        0 <= j < objects.len(),
        hex_text(object_name(objects[j])) == d.base,
        forall|i: int| j < i < objects.len() ==> hex_text(object_name(#[trigger] objects[i])) != d.base,
        delta_outcome(objects[j].data, d.delta) == Outcome::Done(bytes),
    ensures
        with_deltas(objects, seq![d]) == Outcome::Done(
            objects.push(ObjectView { kind: objects[j].kind, data: bytes }),
        ),
{
    reveal_with_fuel(with_deltas, 2);
    assert(seq![d].drop_first() =~= Seq::empty());
    lemma_named_is_found(objects, j);
    lemma_last_is_last(objects, d.base, j);
}

proof fn lemma_last_is_last(objects: Seq<ObjectView>, sha: Seq<char>, j: int)
    requires
        0 <= j < objects.len(),
        hex_text(object_name(objects[j])) == sha,
        forall|i: int| j < i < objects.len() ==> hex_text(object_name(#[trigger] objects[i])) != sha,
    ensures
        last_named(objects, sha) == Some(j),
    decreases objects.len(),
{
    if j < objects.len() - 1 {
        assert(hex_text(object_name(objects[objects.len() - 1])) != sha);
        lemma_last_is_last(objects.drop_last(), sha, j);
    }
}

/// A delta is passed over when its base is not at hand, or when it is refused.
pub proof fn delta_is_passed_over(objects: Seq<ObjectView>, d: DeltaView)
    requires
        forall|i: int|
            0 <= i < objects.len() ==> hex_text(object_name(#[trigger] objects[i])) != d.base
                || delta_outcome(objects[i].data, d.delta) is Failed,
    ensures
        with_deltas(objects, seq![d]) == Outcome::Done(objects),
{
    reveal_with_fuel(with_deltas, 2);
    assert(seq![d].drop_first() =~= Seq::empty());
    lemma_last_named(objects, d.base);
    if let Some(j) = last_named(objects, d.base) {
        assert(hex_text(object_name(objects[j])) == d.base);
    }
}

/// Deltas are applied one after the other: those that come later to what those before them gave.
pub proof fn deltas_go_on(objects: Seq<ObjectView>, deltas: Seq<DeltaView>, more: Seq<DeltaView>)
    ensures
        with_deltas(objects, deltas + more) == (match with_deltas(objects, deltas) {
            Outcome::Done(all) => with_deltas(all, more),
            other => other,
        }),
    decreases more.len(),
{
    if more.len() == 0 {
        assert(deltas + more =~= deltas);
    } else {
        let (front, d) = (more.drop_last(), more.last());
        deltas_go_on(objects, deltas, front);
        lemma_delta_last(objects, deltas + front, d);
        assert((deltas + front).push(d) =~= deltas + more);
        if let Outcome::Done(all) = with_deltas(objects, deltas) {
            lemma_delta_last(all, front, d);
            assert(front.push(d) =~= more);
        }
    }
}

/// A pack adds all objects that it holds to those at hand, and behind them what its deltas make
/// of all of these; one that is refused adds nothing.
pub proof fn merging_adds_pack(objects: Seq<ObjectView>, pack: Seq<u8>)
    ensures
        parse_outcome(pack) matches Outcome::Done(p) ==> {
            &&& merged(objects, seq![pack]) == with_deltas(objects + p.objects, p.deltas)
            &&& merged(objects, seq![pack]) matches Outcome::Done(all) ==> objects.len()
                + p.objects.len() <= all.len() <= objects.len() + p.objects.len() + p.deltas.len()
                && all.take((objects.len() + p.objects.len()) as int) == objects + p.objects
        },
        parse_outcome(pack) is Failed ==> merged(objects, seq![pack]) == Outcome::Done(objects),
        merged(objects, Seq::empty()) == Outcome::Done(objects),
{
    reveal_with_fuel(merged, 2);
    assert(seq![pack].drop_first() =~= Seq::empty());
    if let Outcome::Done(p) = parse_outcome(pack) {
        deltas_keep_objects(objects + p.objects, p.deltas);
    }
}

proof fn lemma_held_and_based(objects: Seq<ObjectView>, bases: Seq<ObjectView>, k: nat)
    requires
        k <= objects.len(),
    ensures
        (held(objects, bases, k) + based(objects, bases, k)).to_multiset() == objects.take(
            k as int,
        ).to_multiset(),
    decreases k,
{
    broadcast use vstd::seq_lib::group_to_multiset_ensures;

    if k == 0 {
        assert(held(objects, bases, 0) + based(objects, bases, 0) =~= objects.take(0));
    } else {
        let i = (k - 1) as nat;
        let o = objects[k - 1];
        lemma_held_and_based(objects, bases, i);
        let (h, b) = (held(objects, bases, i), based(objects, bases, i));
        assert(objects.take(k as int) =~= objects.take(i as int).push(o));
        vstd::seq_lib::lemma_multiset_commutative(h, b);
        vstd::seq_lib::lemma_multiset_commutative(h.push(o), b);
        vstd::seq_lib::lemma_multiset_commutative(h, b.push(o));
        assert(h.push(o).to_multiset().add(b.to_multiset()) =~= h.to_multiset().add(
            b.to_multiset(),
        ).insert(o));
        assert(h.to_multiset().add(b.push(o).to_multiset()) =~= h.to_multiset().add(
            b.to_multiset(),
        ).insert(o));
    }
}

/// A pack that was built of objects against bases that are at hand adds just those objects, those
/// that it stores whole and those that it stores as deltas alike.
pub proof fn merging_adds_what_was_packed(
    at_hand: Seq<ObjectView>,
    objects: Seq<ObjectView>,
    bases: Seq<ObjectView>,
    pack: Seq<u8>,
)
    requires
        parse_outcome(pack) == Outcome::Done(
            PackView {
                objects: held(objects, bases, objects.len()),
                deltas: base_deltas(objects, bases, objects.len()),
            },
        ),
        within_offsets(bases),
        forall|i: int| 0 <= i < objects.len() ==> (#[trigger] objects[i]).data.len() <= usize::MAX,
        forall|j: int| 0 <= j < bases.len() ==> at_hand.contains(#[trigger] bases[j]),
        no_collisions(at_hand + objects),
    ensures
        merged(at_hand, seq![pack]) matches Outcome::Done(all) && all.to_multiset() == (at_hand
            + objects).to_multiset() && all.take(at_hand.len() as int) == at_hand,
{
    let n = objects.len();
    let h = held(objects, bases, n);
    let b = based(objects, bases, n);
    let start = at_hand + h;
    assert forall|j: int| 0 <= j < bases.len() implies start.contains(#[trigger] bases[j]) by {
        let i = choose|i: int| 0 <= i < at_hand.len() && at_hand[i] == bases[j];
        assert(at_hand.contains(bases[j]));
        assert(start[i] == bases[j]);
    }
    lemma_held_within(objects, bases, n);
    assert(no_collisions(start + objects)) by {
        let (small, large) = (at_hand + objects, start + objects);
        assert forall|i: int| 0 <= i < large.len() implies small.contains(#[trigger] large[i]) by {
            if i < at_hand.len() {
                assert(small[i] == large[i]);
            } else if i < start.len() {
                let o = h[i - at_hand.len()];
                assert(objects.contains(o));
                let k = choose|k: int| 0 <= k < objects.len() && objects[k] == o;
                assert(small[at_hand.len() + k] == large[i]);
            } else {
                assert(small[i - h.len()] == large[i]);
            }
        }
        assert forall|i: int, j: int|
            #![trigger large[i], large[j]]
            0 <= i < large.len() && 0 <= j < large.len() && hex_text(object_name(large[i]))
                == hex_text(object_name(large[j])) implies large[i] == large[j] by {
            assert(small.contains(large[i]) && small.contains(large[j]));
            let x = choose|x: int| 0 <= x < small.len() && small[x] == large[i];
            let y = choose|y: int| 0 <= y < small.len() && small[y] == large[j];
            assert(small[x] == small[y]);
        }
    }
    thin_pack_is_resolved(start, objects, bases, n);
    merging_adds_pack(at_hand, pack);
    let all = start + b;
    lemma_held_and_based(objects, bases, n);
    assert(objects.take(n as int) =~= objects);
    assert(all =~= at_hand + (h + b));
    vstd::seq_lib::lemma_multiset_commutative(at_hand, h + b);
    vstd::seq_lib::lemma_multiset_commutative(at_hand, objects);
    assert(all.take(at_hand.len() as int) =~= at_hand);
}

proof fn lemma_held_within(objects: Seq<ObjectView>, bases: Seq<ObjectView>, k: nat)
    requires
        k <= objects.len(),
    ensures
        forall|i: int|
            0 <= i < held(objects, bases, k).len() ==> objects.contains(
                #[trigger] held(objects, bases, k)[i],
            ),
    decreases k,
{
    if k > 0 {
        let before = held(objects, bases, (k - 1) as nat);
        lemma_held_within(objects, bases, (k - 1) as nat);
        assert(objects.contains(objects[k - 1]));
        assert forall|i: int| 0 <= i < held(objects, bases, k).len() implies objects.contains(
            #[trigger] held(objects, bases, k)[i],
        ) by {
            if i < before.len() {
                assert(objects.contains(before[i]));
            }
        }
    }
}

/// Finds the last object with a name, `names` being the names of the objects.
fn find_named(
    names: &Vec<String>,
    sha: &str,
    Ghost(objects): Ghost<Seq<ObjectView>>,
) -> (r: Option<usize>)
    requires
        names@.len() == objects.len(),
        forall|i: int|
            0 <= i < objects.len() ==> (#[trigger] names@[i])@ == hex_text(object_name(objects[i])),
    ensures
        match last_named(objects, sha@) {
            Some(j) => r matches Some(i) && i == j && i < names@.len(),
            None => r is None,
        },
{
    let mut n: usize = names.len();
    assert(objects.take(n as int) =~= objects);
    while n > 0
        invariant
            n <= names@.len() == objects.len(),
            forall|i: int|
                0 <= i < objects.len() ==> (#[trigger] names@[i])@ == hex_text(object_name(objects[i])),
            last_named(objects, sha@) == last_named(objects.take(n as int), sha@),
        decreases n,
    {
        assert(objects.take(n as int).last() == objects[n - 1]);
        assert(objects.take(n as int).drop_last() =~= objects.take(n - 1));
        if same_text(names[n - 1].as_str(), sha) {
            return Some(n - 1);
        }
        n -= 1;
    }
    None
}

/// Whether `names` are the names of the objects.
spec fn names_match(names: Seq<String>, objects: Seq<PackObject>) -> bool {
    &&& names.len() == objects.len()
    &&& forall|i: int|
        0 <= i < objects.len() ==> (#[trigger] names[i])@ == hex_text(object_name(objects[i]@))
}

fn add_object(objects: &mut Vec<PackObject>, names: &mut Vec<String>, o: PackObject)
    requires
        names_match(old(names)@, old(objects)@),
    ensures
        names_match(final(names)@, final(objects)@),
        object_views(final(objects)@) == object_views(old(objects)@).push(o@),
{
    let name = o.sha1();
    let ghost view = o@;
    names.push(name);
    objects.push(o);
    assert(object_views(objects@) =~= object_views(old(objects)@).push(view));
}

/// Adds what deltas make of the objects; `None` when a delta breaks off.
fn add_deltas(
    objects: &mut Vec<PackObject>,
    names: &mut Vec<String>,
    deltas: &Vec<UnresolvedDelta>,
) -> (r: Option<()>)
    requires
        names_match(old(names)@, old(objects)@),
    ensures
        names_match(final(names)@, final(objects)@),
        match with_deltas(object_views(old(objects)@), crate::object::delta_views(deltas@)) {
            Outcome::Done(all) => r is Some && object_views(final(objects)@) == all,
            Outcome::Failed(_) => false,
            Outcome::Broken => r is None,
        },
{
    let ghost start = object_views(objects@);
    let ghost all = crate::object::delta_views(deltas@);
    let mut i: usize = 0;
    assert(all.skip(0) =~= all);
    while i < deltas.len()
        invariant
            i <= deltas.len(),
            all == crate::object::delta_views(deltas@),
            start == object_views(old(objects)@),
            names_match(names@, objects@),
            with_deltas(start, all) == with_deltas(object_views(objects@), all.skip(i as int)),
        decreases deltas.len() - i,
    {
        let ghost views = object_views(objects@);
        let d = &deltas[i];
        assert(all.skip(i as int)[0] == d@);
        assert(all.skip(i as int).drop_first() =~= all.skip(i + 1));
        if let Some(j) = find_named(names, d.base_sha.as_str(), Ghost(views)) {
            assert(last_named(views, d@.base) == Some(j as int));
            assert(views[j as int] == objects@[j as int]@);
            let obj_type = objects[j].obj_type.clone();
            match run_delta(&objects[j].data, &d.delta_data) {
                None => {
                    return None;
                },
                Some(Err(_)) => {},
                Some(Ok(bytes)) => {
                    let o = PackObject { obj_type, data: bytes };
                    assert(o@ =~= ObjectView { kind: views[j as int].kind, data: bytes@ });
                    add_object(objects, names, o);
                },
            }
        }
        i += 1;
    }
    Some(())
}

/// The objects of packs and of their deltas, in order; `None` when a pack or a delta breaks off.
pub fn merge_packs(packs: &Vec<Vec<u8>>) -> (r: Option<Vec<PackObject>>)
    ensures
        match merged(Seq::empty(), pack_views(packs@)) {
            Outcome::Done(all) => r matches Some(v) && object_views(v@) == all,
            Outcome::Failed(_) => false,
            Outcome::Broken => r is None,
        },
{
    let ghost all = pack_views(packs@);
    let mut objects: Vec<PackObject> = Vec::new();
    let mut names: Vec<String> = Vec::new();
    let mut i: usize = 0;
    assert(object_views(objects@) =~= Seq::empty());
    assert(all.skip(0) =~= all);
    while i < packs.len()
        invariant
            i <= packs.len(),
            all == pack_views(packs@),
            names_match(names@, objects@),
            merged(Seq::empty(), all) == merged(object_views(objects@), all.skip(i as int)),
        decreases packs.len() - i,
    {
        assert(all.skip(i as int)[0] == packs@[i as int]@);
        assert(all.skip(i as int).drop_first() =~= all.skip(i + 1));
        match run_parse(&packs[i]) {
            None => {
                return None;
            },
            Some(Err(_)) => {},
            Some(Ok(pack)) => {
                let ghost before = object_views(objects@);
                let mut k: usize = 0;
                assert(before + pack@.objects.take(0) =~= before);
                while k < pack.objects.len()
                    invariant
                        k <= pack.objects.len(),
                        names_match(names@, objects@),
                        object_views(objects@) == before + pack@.objects.take(k as int),
                    decreases pack.objects.len() - k,
                {
                    add_object(&mut objects, &mut names, pack.objects[k].clone());
                    assert(before + pack@.objects.take(k + 1) =~= (before + pack@.objects.take(
                        k as int,
                    )).push(pack.objects@[k as int]@));
                    k += 1;
                }
                assert(pack@.objects.take(k as int) =~= pack@.objects);
                if add_deltas(&mut objects, &mut names, &pack.deltas).is_none() {
                    return None;
                }
            },
        }
        i += 1;
    }
    Some(objects)
}

} // verus!
