//! What the browser calls: packs as JSON, and signed transactions.

use crate::encoding::{
    base64_bytes, base64_reads_back, base64_text, decode_base64, to_base64,
};
use crate::json::{
    ascending_keys_are_plain, field_is_found, field_views, field_views_index, get_text,
    json_read_list, json_text, json_views, json_views_index, plain_values, read_json_list, text_at,
    text_field, value_at, write_json, Json, JsonView,
};
use crate::object::{
    all_known, are_known, copy_bytes, delta_views, object_name, object_views, DeltaView,
    ObjectView, PackObject, PackView, ParseResult, UnresolvedDelta,
};
use crate::order::in_pack_order;
use crate::outcome::Outcome;
use crate::packfile::{parse, parse_outcome, run_parse};
use crate::packing::{
    build, build_with_bases, is_storable, pack_bytes, storable, within_offsets,
};
use crate::text::hex_text;
use vstd::prelude::*;
use vstd::string::*;

pub use crate::delta::apply_delta;
pub use crate::transaction::create_signed_transaction;

verus! {

/// An object as JSON, its content in base64.
pub open spec fn object_json(o: ObjectView) -> JsonView {
    JsonView::Record(
        seq![
            ("data"@, JsonView::Text(base64_text(o.data))),
            ("obj_type"@, JsonView::Text(o.kind)),
        ],
    )
}

/// A delta against an object elsewhere as JSON, itself in base64.
pub open spec fn delta_json(d: DeltaView) -> JsonView {
    JsonView::Record(
        seq![
            ("base_sha"@, JsonView::Text(d.base)),
            ("delta_data"@, JsonView::Text(base64_text(d.delta))),
        ],
    )
}

/// What a pack holds as JSON.
pub open spec fn pack_json(p: PackView) -> JsonView {
    JsonView::Record(
        seq![
            ("deltas"@, JsonView::List(p.deltas.map_values(|d: DeltaView| delta_json(d)))),
            ("objects"@, JsonView::List(p.objects.map_values(|o: ObjectView| object_json(o)))),
        ],
    )
}

proof fn lemma_object_plain(o: ObjectView)
    ensures
        plain_values(object_json(o)),
{
    reveal_strlit("data");
    reveal_strlit("obj_type");
    ascending_keys_are_plain(object_json(o)->Record_0);
}

proof fn lemma_delta_plain(d: DeltaView)
    ensures
        plain_values(delta_json(d)),
{
    reveal_strlit("base_sha");
    reveal_strlit("delta_data");
    ascending_keys_are_plain(delta_json(d)->Record_0);
}

proof fn lemma_pack_plain(p: PackView)
    ensures
        plain_values(pack_json(p)),
{
    reveal_strlit("deltas");
    reveal_strlit("objects");
    let deltas = p.deltas.map_values(|d: DeltaView| delta_json(d));
    let objects = p.objects.map_values(|o: ObjectView| object_json(o));
    assert forall|i: int| 0 <= i < deltas.len() implies plain_values(#[trigger] deltas[i]) by {
        lemma_delta_plain(p.deltas[i]);
    }
    assert forall|i: int| 0 <= i < objects.len() implies plain_values(#[trigger] objects[i]) by {
        lemma_object_plain(p.objects[i]);
    }
    assert(plain_values(JsonView::List(deltas)));
    assert(plain_values(JsonView::List(objects)));
    ascending_keys_are_plain(pack_json(p)->Record_0);
}

fn object_value(o: &PackObject) -> (r: Json)
    ensures
        r@ == object_json(o@),
{
    let fields = vec![
        text_field("data", to_base64(&o.data).as_str()),
        text_field("obj_type", o.obj_type.as_str()),
    ];
    proof {
        field_views_index(fields@);
        assert(field_views(fields@) =~= object_json(o@)->Record_0);
    }
    Json::Record(fields)
}

fn delta_value(d: &UnresolvedDelta) -> (r: Json)
    ensures
        r@ == delta_json(d@),
{
    let fields = vec![
        text_field("base_sha", d.base_sha.as_str()),
        text_field("delta_data", to_base64(&d.delta_data).as_str()),
    ];
    proof {
        field_views_index(fields@);
        assert(field_views(fields@) =~= delta_json(d@)->Record_0);
    }
    Json::Record(fields)
}

fn object_values(objects: &Vec<PackObject>) -> (r: Json)
    ensures
        r@ == JsonView::List(object_views(objects@).map_values(|o: ObjectView| object_json(o))),
{
    let mut items: Vec<Json> = Vec::new();
    let mut i: usize = 0;
    while i < objects.len()
        invariant
            i <= objects.len(),
            items@.len() == i,
            forall|k: int| 0 <= k < i ==> (#[trigger] items@[k])@ == object_json(objects@[k]@),
        decreases objects.len() - i,
    {
        items.push(object_value(&objects[i]));
        i += 1;
    }
    proof {
        json_views_index(items@);
        assert(json_views(items@) =~= object_views(objects@).map_values(
            |o: ObjectView| object_json(o),
        ));
    }
    Json::List(items)
}

fn delta_values(deltas: &Vec<UnresolvedDelta>) -> (r: Json)
    ensures
        r@ == JsonView::List(delta_views(deltas@).map_values(|d: DeltaView| delta_json(d))),
{
    let mut items: Vec<Json> = Vec::new();
    let mut i: usize = 0;
    while i < deltas.len()
        invariant
            i <= deltas.len(),
            items@.len() == i,
            forall|k: int| 0 <= k < i ==> (#[trigger] items@[k])@ == delta_json(deltas@[k]@),
        decreases deltas.len() - i,
    {
        items.push(delta_value(&deltas[i]));
        i += 1;
    }
    proof {
        json_views_index(items@);
        assert(json_views(items@) =~= delta_views(deltas@).map_values(|d: DeltaView| delta_json(d)));
    }
    Json::List(items)
}

/// What a pack holds as JSON.
pub fn describe_pack(pack: &ParseResult) -> (r: String)
    ensures
        r@ == json_text(pack_json(pack@)),
{
    let fields = vec![
        ("deltas".to_owned(), delta_values(&pack.deltas)),
        ("objects".to_owned(), object_values(&pack.objects)),
    ];
    proof {
        field_views_index(fields@);
        assert(field_views(fields@) =~= pack_json(pack@)->Record_0);
        lemma_pack_plain(pack@);
    }
    write_json(&Json::Record(fields))
}

/// Reads a pack and gives what it holds as JSON.
pub fn parse_packfile(data: &[u8]) -> (r: Result<String, String>)
    requires
        !(parse_outcome(data@) is Broken),
    ensures
        match parse_outcome(data@) {
            Outcome::Done(p) => r matches Ok(s) && s@ == json_text(pack_json(p)),
            Outcome::Failed(m) => r matches Err(e) && e@ == m,
            Outcome::Broken => false,
        },
{
    match parse(data) {
        Ok(pack) => Ok(describe_pack(&pack)),
        Err(e) => Err(e),
    }
}

/// Reads a pack and gives what it holds as JSON, or `None` when it breaks off inside a delta or
/// refers to itself.
pub fn parse_packfile_checked(data: &[u8]) -> (r: Option<Result<String, String>>)
    ensures
        match parse_outcome(data@) {
            Outcome::Done(p) => r matches Some(Ok(s)) && s@ == json_text(pack_json(p)),
            Outcome::Failed(m) => r matches Some(Err(e)) && e@ == m,
            Outcome::Broken => r is None,
        },
{
    match run_parse(data) {
        Some(_) => Some(parse_packfile(data)),
        None => None,
    }
}

/// The object that a JSON value stands for, its content in base64. The type is a blob and the
/// content empty where there is none.
pub open spec fn object_from(v: JsonView) -> ObjectView {
    ObjectView {
        kind: match text_at(v, "obj_type"@) {
            Some(kind) => kind,
            None => "blob"@,
        },
        data: match text_at(v, "data"@) {
            Some(text) => base64_bytes(text),
            None => Seq::empty(),
        },
    }
}

/// The objects that JSON values stand for.
pub open spec fn objects_from(items: Seq<JsonView>) -> Seq<ObjectView> {
    items.map_values(|v: JsonView| object_from(v))
}

/// The objects that a JSON text lists, or what is wrong with it.
pub open spec fn listed_objects(objects_json: Seq<char>) -> Result<Seq<ObjectView>, Seq<char>> {
    match json_read_list(objects_json) {
        Ok(items) => Ok(objects_from(items)),
        Err(m) => Err(m),
    }
}

/// A JSON array lists an object for each of its values, in their order.
pub proof fn each_value_is_an_object(objects_json: Seq<char>, items: Seq<JsonView>, i: int)
    requires
        json_read_list(objects_json) == Ok::<Seq<JsonView>, Seq<char>>(items),
    ensures
        listed_objects(objects_json) matches Ok(objects) && objects.len() == items.len() && (0 <= i
            < items.len() ==> objects[i] == object_from(items[i])),
{
}

/// An object that is written as JSON reads back: its type, and its content out of base64.
pub proof fn object_json_reads_back(o: ObjectView)
    ensures
        object_from(object_json(o)) == o,
{
    reveal_strlit("data");
    reveal_strlit("obj_type");
    assert("data"@.len() != "obj_type"@.len());
    let fields = object_json(o)->Record_0;
    field_is_found(fields, 0);
    field_is_found(fields, 1);
    base64_reads_back(o.data);
    assert(object_from(object_json(o)) =~= o);
}

/// A pack that is written as JSON reads back: all its objects, and all its deltas, each with the
/// name of its base and itself out of base64, in their order.
pub proof fn pack_json_reads_back(p: PackView, i: int)
    ensures
        value_at(pack_json(p), "objects"@) matches JsonView::List(items) && objects_from(items)
            == p.objects,
        value_at(pack_json(p), "deltas"@) matches JsonView::List(items) && items.len()
            == p.deltas.len() && (0 <= i < items.len() ==> text_at(items[i], "base_sha"@) == Some(
            p.deltas[i].base,
        ) && (text_at(items[i], "delta_data"@) matches Some(text) && base64_bytes(text)
            == p.deltas[i].delta)),
{
    reveal_strlit("objects");
    reveal_strlit("deltas");
    reveal_strlit("base_sha");
    reveal_strlit("delta_data");
    assert("objects"@.len() != "deltas"@.len() && "base_sha"@.len() != "delta_data"@.len());
    let fields = pack_json(p)->Record_0;
    field_is_found(fields, 0);
    field_is_found(fields, 1);
    let items = p.objects.map_values(|o: ObjectView| object_json(o));
    assert forall|k: int| 0 <= k < items.len() implies object_from(#[trigger] items[k])
        == p.objects[k] by {
        object_json_reads_back(p.objects[k]);
    }
    assert(objects_from(items) =~= p.objects);
    if 0 <= i < p.deltas.len() {
        let d = delta_json(p.deltas[i])->Record_0;
        field_is_found(d, 0);
        field_is_found(d, 1);
        base64_reads_back(p.deltas[i].delta);
    }
}

/// An object without a type is a blob, and one without content is empty.
pub proof fn objects_default_to_empty_blobs(v: JsonView)
    requires
        text_at(v, "obj_type"@) is None,
        text_at(v, "data"@) is None,
    ensures
        object_from(v) == (ObjectView { kind: "blob"@, data: Seq::empty() }),
{
}

fn object_of(json: &Json) -> (r: PackObject)
    ensures
        r@ == object_from(json@),
{
    let obj_type = match get_text(json, "obj_type") {
        Some(s) => s,
        None => "blob".to_owned(),
    };
    let data = match get_text(json, "data") {
        Some(s) => decode_base64(s.as_str()),
        None => Vec::new(),
    };
    let o = PackObject { obj_type, data };
    assert(o@ =~= object_from(json@));
    o
}

/// The objects that JSON values stand for.
pub fn objects_of(items: &Vec<Json>) -> (r: Vec<PackObject>)
    ensures
        object_views(r@) == objects_from(json_views(items@)),
{
    let mut objects: Vec<PackObject> = Vec::new();
    let mut i: usize = 0;
    while i < items.len()
        invariant
            i <= items.len(),
            objects@.len() == i,
            forall|k: int| 0 <= k < i ==> (#[trigger] objects@[k])@ == object_from(items@[k]@),
        decreases items.len() - i,
    {
        objects.push(object_of(&items[i]));
        i += 1;
    }
    proof {
        json_views_index(items@);
        assert(object_views(objects@) =~= objects_from(json_views(items@)));
    }
    objects
}

/// Reads objects from JSON.
fn read_objects(objects_json: &str) -> (r: Result<Vec<PackObject>, String>)
    ensures
        match listed_objects(objects_json@) {
            Ok(objects) => r matches Ok(v) && object_views(v@) == objects,
            Err(m) => r matches Err(e) && e@ == m,
        },
{
    match read_json_list(objects_json) {
        Err(e) => Err(e),
        Ok(items) => Ok(objects_of(&items)),
    }
}

/// Builds a pack from a JSON array of objects with their types and their contents in base64.
pub fn build_packfile(objects_json: &str) -> (r: Result<Vec<u8>, String>)
    requires
        listed_objects(objects_json@) matches Ok(objects) ==> all_known(objects),
    ensures
        match listed_objects(objects_json@) {
            Ok(objects) => r matches Ok(v) && v@ == pack_bytes(in_pack_order(objects), Seq::empty()) && (
            objects.len() <= u32::MAX && within_offsets(objects) ==> parse_outcome(v@) == Outcome::Done(
                PackView { objects: in_pack_order(objects), deltas: Seq::empty() },
            )),
            Err(m) => r matches Err(e) && e@ == m,
        },
{
    match read_objects(objects_json) {
        Err(e) => Err(e),
        Ok(objects) => Ok(build(&objects)),
    }
}

/// Builds a pack from a JSON array of objects, or gives `None` when one of them has a type that
/// cannot be stored.
pub fn build_packfile_checked(objects_json: &str) -> (r: Option<Result<Vec<u8>, String>>)
    ensures
        match listed_objects(objects_json@) {
            Ok(objects) => if all_known(objects) {
                r matches Some(Ok(v)) && v@ == pack_bytes(in_pack_order(objects), Seq::empty())
            } else {
                r is None
            },
            Err(m) => r matches Some(Err(e)) && e@ == m,
        },
{
    match read_objects(objects_json) {
        Err(e) => Some(Err(e)),
        Ok(objects) => {
            if are_known(&objects) {
                Some(build_packfile(objects_json))
            } else {
                None
            }
        },
    }
}

/// Builds a pack from a JSON array of objects, as deltas against those of another array where
/// that saves a tenth. Whoever reads it needs the latter.
pub fn build_packfile_with_bases(
    objects_json: &str,
    bases_json: &str,
) -> (r: Result<Vec<u8>, String>)
    requires
        match (listed_objects(objects_json@), listed_objects(bases_json@)) {
            (Ok(objects), Ok(bases)) => storable(in_pack_order(objects), bases),
            _ => true,
        },
    ensures
        match (listed_objects(objects_json@), listed_objects(bases_json@)) {
            (Err(m), _) => r matches Err(e) && e@ == m,
            (_, Err(m)) => r matches Err(e) && e@ == m,
            (Ok(objects), Ok(bases)) => r matches Ok(v) && v@ == pack_bytes(
                in_pack_order(objects),
                bases,
            ),
        },
{
    let objects = match read_objects(objects_json) {
        Err(e) => {
            return Err(e);
        },
        Ok(objects) => objects,
    };
    match read_objects(bases_json) {
        Err(e) => Err(e),
        Ok(bases) => Ok(build_with_bases(&objects, &bases)),
    }
}

/// Builds a pack from JSON arrays of objects and bases, or gives `None` when an object that is
/// stored whole has a type that cannot be stored.
pub fn build_packfile_with_bases_checked(
    objects_json: &str,
    bases_json: &str,
) -> (r: Option<Result<Vec<u8>, String>>)
    ensures
        match (listed_objects(objects_json@), listed_objects(bases_json@)) {
            (Err(m), _) => r matches Some(Err(e)) && e@ == m,
            (_, Err(m)) => r matches Some(Err(e)) && e@ == m,
            (Ok(objects), Ok(bases)) => if storable(in_pack_order(objects), bases) {
                r matches Some(Ok(v)) && v@ == pack_bytes(in_pack_order(objects), bases)
            } else {
                r is None
            },
        },
{
    if let (Ok(objects), Ok(bases)) = (read_objects(objects_json), read_objects(bases_json)) {
        if !is_storable(&objects, &bases) {
            return None;
        }
    }
    Some(build_packfile_with_bases(objects_json, bases_json))
}

/// The name of an object with this type and content, in hexadecimal.
pub fn git_sha1(obj_type: &str, data: &[u8]) -> (r: String)
    ensures
        r@ == hex_text(object_name(ObjectView { kind: obj_type@, data: data@ })),
{
    let o = PackObject { obj_type: obj_type.to_owned(), data: copy_bytes(data) };
    assert(o@ =~= ObjectView { kind: obj_type@, data: data@ });
    o.sha1()
}

} // verus!
