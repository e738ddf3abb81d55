//! The order of objects in a pack.

use crate::object::{object_views, ObjectView, PackObject};
use crate::text::same_text;
use vstd::prelude::*;
use vstd::relations::{sorted_by, total_ordering};
use vstd::utf8::{decode_utf8, encode_utf8};

verus! {

/// Whether `a` does not come after `b` in the dictionary.
pub open spec fn bytes_le(a: Seq<u8>, b: Seq<u8>) -> bool
    decreases a.len(),
{
    if a.len() == 0 {
        true
    } else if b.len() == 0 {
        false
    } else if a[0] != b[0] {
        a[0] < b[0]
    } else {
        bytes_le(a.drop_first(), b.drop_first())
    }
}

/// Whether the object at `i` does not come after that at `j` in a pack: objects go by type,
/// those of one type by size, the largest first, and those of one size as they were given.
pub open spec fn pack_le(objects: Seq<ObjectView>, i: int, j: int) -> bool {
    let (a, b) = (objects[i], objects[j]);
    if a.kind != b.kind {
        bytes_le(encode_utf8(a.kind), encode_utf8(b.kind))
    } else if a.data.len() != b.data.len() {
        a.data.len() > b.data.len()
    } else {
        i <= j
    }
}

/// The numbers from 0 to `n`, `n` left out.
pub open spec fn numbers(n: nat) -> Seq<int> {
    Seq::new(n, |i: int| i)
}

/// The order in which objects are packed.
pub open spec fn pack_order(objects: Seq<ObjectView>) -> Seq<int> {
    numbers(objects.len()).sort_by(|i: int, j: int| pack_le(objects, i, j))
}

/// The objects in the order in which they are packed.
pub open spec fn in_pack_order(objects: Seq<ObjectView>) -> Seq<ObjectView> {
    pack_order(objects).map_values(|i: int| objects[i])
}

proof fn lemma_bytes_total(a: Seq<u8>, b: Seq<u8>)
    ensures
        bytes_le(a, b) || bytes_le(b, a),
        bytes_le(a, b) && bytes_le(b, a) ==> a == b,
    decreases a.len(),
{
    if a.len() > 0 && b.len() > 0 {
        lemma_bytes_total(a.drop_first(), b.drop_first());
        if a[0] == b[0] && a.drop_first() == b.drop_first() {
            assert(a =~= seq![a[0]] + a.drop_first());
            assert(b =~= seq![b[0]] + b.drop_first());
        }
    } else if a.len() == 0 && b.len() == 0 {
        assert(a =~= b);
    }
}

proof fn lemma_bytes_transitive(a: Seq<u8>, b: Seq<u8>, c: Seq<u8>)
    requires
        bytes_le(a, b),
        bytes_le(b, c),
    ensures
        bytes_le(a, c),
    decreases a.len(),
{
    if a.len() > 0 && b.len() > 0 && c.len() > 0 && a[0] == b[0] && b[0] == c[0] {
        lemma_bytes_transitive(a.drop_first(), b.drop_first(), c.drop_first());
    }
}

proof fn lemma_pack_total(objects: Seq<ObjectView>, i: int, j: int)
    ensures
        pack_le(objects, i, i),
        pack_le(objects, i, j) || pack_le(objects, j, i),
        pack_le(objects, i, j) && pack_le(objects, j, i) ==> i == j,
{
    broadcast use vstd::utf8::encode_utf8_decode_utf8;

    let (a, b) = (objects[i].kind, objects[j].kind);
    lemma_bytes_total(encode_utf8(a), encode_utf8(b));
    assert(a == decode_utf8(encode_utf8(a)));
    assert(b == decode_utf8(encode_utf8(b)));
}

proof fn lemma_pack_transitive(objects: Seq<ObjectView>, i: int, j: int, k: int)
    requires
        pack_le(objects, i, j),
        pack_le(objects, j, k),
    ensures
        pack_le(objects, i, k),
{
    broadcast use vstd::utf8::encode_utf8_decode_utf8;

    let (a, b, c) = (objects[i].kind, objects[j].kind, objects[k].kind);
    if a != b && b != c {
        lemma_bytes_transitive(encode_utf8(a), encode_utf8(b), encode_utf8(c));
        if a == c {
            lemma_bytes_total(encode_utf8(a), encode_utf8(b));
            assert(a == decode_utf8(encode_utf8(a)));
            assert(b == decode_utf8(encode_utf8(b)));
        }
    }
}

/// Packing puts any objects in a well-determined order.
pub proof fn pack_le_is_total(objects: Seq<ObjectView>)
    ensures
        total_ordering(|i: int, j: int| pack_le(objects, i, j)),
{
    let leq = |i: int, j: int| pack_le(objects, i, j);
    assert forall|i: int| #[trigger] leq(i, i) by {
        lemma_pack_total(objects, i, i);
    }
    assert forall|i: int, j: int| #[trigger] leq(i, j) && #[trigger] leq(j, i) implies i == j by {
        lemma_pack_total(objects, i, j);
    }
    assert forall|i: int, j: int| #[trigger] leq(i, j) || #[trigger] leq(j, i) by {
        lemma_pack_total(objects, i, j);
    }
    assert forall|i: int, j: int, k: int| #[trigger] leq(i, j) && #[trigger] leq(j, k) implies leq(
        i,
        k,
    ) by {
        lemma_pack_transitive(objects, i, j, k);
    }
}

/// Packing loses no object and adds none: the order is one of the objects' places, and none
/// comes before one that it is to come after.
pub proof fn pack_order_is_complete(objects: Seq<ObjectView>)
    ensures
        pack_order(objects).len() == objects.len(),
        pack_order(objects).to_multiset() == numbers(objects.len()).to_multiset(),
        forall|k: int|
            0 <= k < objects.len() ==> 0 <= #[trigger] pack_order(objects)[k] < objects.len(),
        sorted_by(pack_order(objects), |i: int, j: int| pack_le(objects, i, j)),
        in_pack_order(objects).to_multiset() == objects.to_multiset(),
{
    let leq = |i: int, j: int| pack_le(objects, i, j);
    let all = numbers(objects.len());
    let order = pack_order(objects);
    pack_le_is_total(objects);
    all.lemma_sort_by_ensures(leq);
    all.to_multiset_ensures();
    order.to_multiset_ensures();
    assert forall|k: int| 0 <= k < objects.len() implies 0 <= #[trigger] order[k] < objects.len() by {
        assert(order.contains(order[k]));
        assert(all.contains(order[k]));
    }
    lemma_map_multiset(all, order, objects);
    assert(all.map_values(|i: int| objects[i]) =~= objects);
}

/// Texts go by their first bytes that differ; one that another starts with comes before it.
pub proof fn bytes_go_by_the_first_difference(a: Seq<u8>, b: Seq<u8>, k: int)
    requires
        0 <= k <= a.len(),
        0 <= k <= b.len(),
        a.take(k) == b.take(k),
    ensures
        k == a.len() ==> bytes_le(a, b),
        k == b.len() && k < a.len() ==> !bytes_le(a, b),
        k < a.len() && k < b.len() && a[k] != b[k] ==> bytes_le(a, b) == (a[k] < b[k]),
    decreases k,
{
    if k > 0 {
        assert(a.take(k)[0] == a[0] && b.take(k)[0] == b[0]);
        assert(a.drop_first().take(k - 1) =~= a.take(k).drop_first());
        assert(b.drop_first().take(k - 1) =~= b.take(k).drop_first());
        bytes_go_by_the_first_difference(a.drop_first(), b.drop_first(), k - 1);
    }
}

/// In a pack an object comes behind those of other types whose names come first, behind the
/// larger ones of its type, and behind those of its type and size that were given before it.
pub proof fn pack_is_ordered(objects: Seq<ObjectView>, i: int, j: int)
    requires
        0 <= i < j < objects.len(),
    ensures
        ({
            let (a, b) = (in_pack_order(objects)[i], in_pack_order(objects)[j]);
            &&& a.kind != b.kind ==> bytes_le(encode_utf8(a.kind), encode_utf8(b.kind))
            &&& a.kind == b.kind ==> a.data.len() >= b.data.len()
            &&& a.kind == b.kind && a.data.len() == b.data.len() ==> pack_order(objects)[i]
                < pack_order(objects)[j]
            &&& a == objects[pack_order(objects)[i]]
            &&& b == objects[pack_order(objects)[j]]
        }),
{
    let leq = |x: int, y: int| pack_le(objects, x, y);
    let order = pack_order(objects);
    pack_order_is_complete(objects);
    assert(leq(order[i], order[j]));
    lemma_order_is_injective(objects, i, j);
}

proof fn lemma_order_is_injective(objects: Seq<ObjectView>, i: int, j: int)
    requires
        0 <= i < j < objects.len(),
    ensures
        pack_order(objects)[i] != pack_order(objects)[j],
{
    let all = numbers(objects.len());
    let order = pack_order(objects);
    pack_order_is_complete(objects);
    assert(all.no_duplicates());
    all.lemma_multiset_has_no_duplicates();
    order.lemma_multiset_has_no_duplicates_conv();
}

/// Places that are the same up to order hold objects that are the same up to order.
proof fn lemma_map_multiset(a: Seq<int>, b: Seq<int>, objects: Seq<ObjectView>)
    requires
        a.to_multiset() == b.to_multiset(),
    ensures
        a.map_values(|i: int| objects[i]).to_multiset() == b.map_values(|i: int| objects[i]).to_multiset(),
    decreases a.len(),
{
    let f = |i: int| objects[i];
    a.to_multiset_ensures();
    b.to_multiset_ensures();
    if a.len() == 0 {
        assert(a =~= b);
    } else {
        let x = a.last();
        let (fa, fb) = (a.map_values(f), b.map_values(f));
        assert(a.contains(x));
        assert(b.to_multiset().count(x) > 0);
        let i = b.index_of(x);
        assert(b[i] == x);
        assert(a.drop_last() =~= a.remove(a.len() - 1));
        lemma_map_multiset(a.drop_last(), b.remove(i), objects);
        assert(fa =~= a.drop_last().map_values(f).push(f(x)));
        assert(fb =~= b.remove(i).map_values(f).insert(i, f(x)));
        a.drop_last().map_values(f).to_multiset_ensures();
        vstd::seq_lib::to_multiset_insert(b.remove(i).map_values(f), i, f(x));
    }
}

/// Whether `a` does not come after `b` in the dictionary.
pub fn not_after(a: &[u8], b: &[u8]) -> (r: bool)
    ensures
        r == bytes_le(a@, b@),
{
    let mut i: usize = 0;
    assert(a@.skip(0) =~= a@);
    assert(b@.skip(0) =~= b@);
    while i < a.len()
        invariant
            i <= a.len(),
            i <= b.len(),
            bytes_le(a@, b@) == bytes_le(a@.skip(i as int), b@.skip(i as int)),
        decreases a.len() - i,
    {
        if i >= b.len() {
            return false;
        }
        assert(a@.skip(i as int).drop_first() =~= a@.skip(i + 1));
        assert(b@.skip(i as int).drop_first() =~= b@.skip(i + 1));
        if a[i] != b[i] {
            return a[i] < b[i];
        }
        i += 1;
    }
    true
}

fn packs_before(objects: &[PackObject], i: usize, j: usize) -> (r: bool)
    requires
        i < objects.len(),
        j < objects.len(),
    ensures
        r == pack_le(object_views(objects@), i as int, j as int),
{
    let (a, b) = (&objects[i], &objects[j]);
    if !same_text(a.obj_type.as_str(), b.obj_type.as_str()) {
        not_after(a.obj_type.as_str().as_bytes(), b.obj_type.as_str().as_bytes())
    } else if a.data.len() != b.data.len() {
        a.data.len() > b.data.len()
    } else {
        i <= j
    }
}

/// Places as numbers.
pub open spec fn places(order: Seq<usize>) -> Seq<int> {
    order.map_values(|i: usize| i as int)
}

/// Finds where the object at `i` goes among those in `order`.
fn place_of(objects: &[PackObject], order: &Vec<usize>, i: usize) -> (r: usize)
    requires
        i < objects.len(),
        forall|k: int| 0 <= k < order.len() ==> #[trigger] order[k] < i,
        sorted_by(places(order@), |i: int, j: int| pack_le(object_views(objects@), i, j)),
    ensures
        r <= order.len(),
        forall|k: int| 0 <= k < r ==> pack_le(object_views(objects@), #[trigger] order[k] as int, i as int),
        forall|k: int| r <= k < order.len() ==> !pack_le(object_views(objects@), #[trigger] order[k] as int, i as int),
{
    let ghost views = object_views(objects@);
    let ghost leq = |i: int, j: int| pack_le(views, i, j);
    let mut low: usize = 0;
    let mut high: usize = order.len();
    while low < high
        invariant
            low <= high <= order.len(),
            i < objects.len(),
            views == object_views(objects@),
            leq == (|i: int, j: int| pack_le(views, i, j)),
            sorted_by(places(order@), leq),
            forall|k: int| 0 <= k < order.len() ==> #[trigger] order[k] < i,
            forall|k: int| 0 <= k < low ==> pack_le(views, #[trigger] order[k] as int, i as int),
            forall|k: int| high <= k < order.len() ==> !pack_le(views, #[trigger] order[k] as int, i as int),
        decreases high - low,
    {
        let mid: usize = low + (high - low) / 2;
        if packs_before(objects, order[mid], i) {
            assert forall|k: int| 0 <= k < mid implies pack_le(views, #[trigger] order[k] as int, i as int) by {
                assert(leq(places(order@)[k], places(order@)[mid as int]));
                lemma_pack_transitive(views, order[k] as int, order[mid as int] as int, i as int);
            }
            low = mid + 1;
        } else {
            assert forall|k: int| mid < k < order.len() implies !pack_le(views, #[trigger] order[k] as int, i as int) by {
                assert(leq(places(order@)[mid as int], places(order@)[k]));
                if pack_le(views, order[k] as int, i as int) {
                    lemma_pack_transitive(views, order[mid as int] as int, order[k] as int, i as int);
                }
            }
            high = mid;
        }
    }
    low
}

/// The order in which objects are packed.
pub(crate) fn sorted_indices(objects: &[PackObject]) -> (r: Vec<usize>)
    ensures
        places(r@) == pack_order(object_views(objects@)),
        r@.len() == objects@.len(),
        forall|k: int| 0 <= k < r@.len() ==> #[trigger] r@[k] < objects@.len(),
{
    let ghost views = object_views(objects@);
    let ghost leq = |i: int, j: int| pack_le(views, i, j);
    let mut order: Vec<usize> = Vec::new();
    let mut i: usize = 0;
    assert(places(order@) =~= numbers(0));
    while i < objects.len()
        invariant
            i <= objects.len(),
            views == object_views(objects@),
            leq == (|i: int, j: int| pack_le(views, i, j)),
            order@.len() == i,
            sorted_by(places(order@), leq),
            places(order@).to_multiset() == numbers(i as nat).to_multiset(),
            forall|k: int| 0 <= k < order.len() ==> #[trigger] order[k] < i,
        decreases objects.len() - i,
    {
        let at: usize = place_of(objects, &order, i);
        let ghost before = order@;
        order.insert(at, i);
        proof {
            let (old_places, new_places) = (places(before), places(order@));
            assert(new_places =~= old_places.insert(at as int, i as int));
            vstd::seq_lib::to_multiset_insert(old_places, at as int, i as int);
            assert(numbers((i + 1) as nat) =~= numbers(i as nat).push(i as int));
            numbers(i as nat).to_multiset_ensures();
            assert forall|a: int, b: int| 0 <= a < b < new_places.len() implies #[trigger] leq(
                new_places[a],
                new_places[b],
            ) by {
                if a != at && b != at {
                    let (oa, ob) = (if a < at { a } else { a - 1 }, if b < at { b } else { b - 1 });
                    assert(new_places[a] == old_places[oa]);
                    assert(new_places[b] == old_places[ob]);
                } else if b == at {
                    assert(new_places[a] == before[a] as int);
                } else {
                    assert(new_places[b] == before[b - 1] as int);
                    lemma_pack_total(views, before[b - 1] as int, i as int);
                }
            }
            assert forall|k: int| 0 <= k < order.len() implies #[trigger] order[k] < i + 1 by {
                if k < at {
                    assert(order[k] == before[k]);
                } else if k > at {
                    assert(order[k] == before[k - 1]);
                }
            }
        }
        i += 1;
    }
    proof {
        pack_le_is_total(views);
        numbers(views.len()).lemma_sort_by_ensures(leq);
        vstd::seq_lib::lemma_sorted_unique(places(order@), pack_order(views), leq);
    }
    order
}

} // verus!
