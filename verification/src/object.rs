//! Git objects and their names.

use crate::digest::{sha1_digest, sha1_of};
use crate::text::{decimal, hex_text, push_decimal, same_text, to_hex};
use vstd::prelude::*;
use vstd::string::*;
use vstd::utf8::encode_utf8;

verus! {

/// A git object: its type and its content.
#[derive(Debug)]
pub struct PackObject {
    /// `commit`, `tree`, `blob` or `tag`.
    pub obj_type: String,
    /// The content.
    pub data: Vec<u8>,
}

/// A delta against an object that the pack does not hold.
#[derive(Debug)]
pub struct UnresolvedDelta {
    /// The name of the base object in hexadecimal.
    pub base_sha: String,
    /// The delta.
    pub delta_data: Vec<u8>,
}

/// What a pack holds.
#[derive(Debug)]
pub struct ParseResult {
    /// The objects, those stored as deltas within the pack included.
    pub objects: Vec<PackObject>,
    /// The deltas whose bases are elsewhere.
    pub deltas: Vec<UnresolvedDelta>,
}

/// The model of an object.
#[verifier::ext_equal]
pub struct ObjectView {
    /// The type.
    pub kind: Seq<char>,
    /// The content.
    pub data: Seq<u8>,
}

/// The model of a delta against an object elsewhere.
#[verifier::ext_equal]
pub struct DeltaView {
    /// The name of the base object in hexadecimal.
    pub base: Seq<char>,
    /// The delta.
    pub delta: Seq<u8>,
}

/// The model of what a pack holds.
#[verifier::ext_equal]
pub struct PackView {
    /// The objects.
    pub objects: Seq<ObjectView>,
    /// The deltas whose bases are elsewhere.
    pub deltas: Seq<DeltaView>,
}

impl View for PackObject {
    type V = ObjectView;

    open spec fn view(&self) -> ObjectView {
        ObjectView { kind: self.obj_type@, data: self.data@ }
    }
}

impl View for UnresolvedDelta {
    type V = DeltaView;

    open spec fn view(&self) -> DeltaView {
        DeltaView { base: self.base_sha@, delta: self.delta_data@ }
    }
}

/// The models of some objects.
pub open spec fn object_views(objects: Seq<PackObject>) -> Seq<ObjectView> {
    objects.map_values(|o: PackObject| o@)
}

/// The models of some deltas.
pub open spec fn delta_views(deltas: Seq<UnresolvedDelta>) -> Seq<DeltaView> {
    deltas.map_values(|d: UnresolvedDelta| d@)
}

impl View for ParseResult {
    type V = PackView;

    open spec fn view(&self) -> PackView {
        PackView {
            objects: object_views(self.objects@),
            deltas: delta_views(self.deltas@),
        }
    }
}

impl Clone for PackObject {
    fn clone(&self) -> (r: Self)
        ensures
            r@ == self@,
    {
        let r = PackObject { obj_type: self.obj_type.clone(), data: copy_bytes(&self.data) };
        assert(r@ =~= self@);
        r
    }
}

impl Clone for UnresolvedDelta {
    fn clone(&self) -> (r: Self)
        ensures
            r@ == self@,
    {
        let r = UnresolvedDelta {
            base_sha: self.base_sha.clone(),
            delta_data: copy_bytes(&self.delta_data),
        };
        assert(r@ =~= self@);
        r
    }
}

/// A copy of some bytes.
pub(crate) fn copy_bytes(data: &[u8]) -> (r: Vec<u8>)
    ensures
        r@ == data@,
{
    let mut r: Vec<u8> = Vec::new();
    crate::delta::push_bytes(&mut r, data);
    assert(r@ =~= data@);
    r
}

/// The bytes that an object's name is the digest of: its type and length, a zero byte, and its
/// content.
pub open spec fn named_bytes(o: ObjectView) -> Seq<u8> {
    encode_utf8(o.kind + " "@ + decimal(o.data.len()) + "\0"@) + o.data
}

/// The name of an object.
pub open spec fn object_name(o: ObjectView) -> Seq<u8> {
    sha1_of(named_bytes(o))
}

impl PackObject {
    /// The bytes that the object's name is the digest of.
    pub fn to_named_bytes(&self) -> (r: Vec<u8>)
        ensures
            r@ == named_bytes(self@),
    {
        let mut header = self.obj_type.clone();
        header.append(" ");
        push_decimal(&mut header, self.data.len() as u64);
        header.append("\0");
        let mut bytes = copy_bytes(header.as_str().as_bytes());
        crate::delta::push_bytes(&mut bytes, &self.data);
        assert(bytes@ =~= named_bytes(self@));
        bytes
    }

    /// The digest that names the object.
    pub(crate) fn name(&self) -> (r: Vec<u8>)
        ensures
            r@ == object_name(self@),
            r@.len() == 20,
    {
        sha1_digest(&self.to_named_bytes())
    }

    /// The name of the object in hexadecimal.
    pub fn sha1(&self) -> (r: String)
        ensures
            r@ == hex_text(object_name(self@)),
            r@.len() == 40,
    {
        to_hex(&self.name())
    }
}

/// An object is named by the digest of its type, a space, the number of its bytes in decimal, a
/// zero byte and its content.
pub proof fn name_is_of_type_size_and_content(o: ObjectView)
    ensures
        object_name(o) == sha1_of(
            encode_utf8(o.kind + seq![' '] + decimal(o.data.len()) + seq!['\0']) + o.data,
        ),
{
    reveal_strlit(" ");
    reveal_strlit("\0");
    assert(" "@ =~= seq![' ']);
    assert("\0"@ =~= seq!['\0']);
}

/// The type that three bits of a pack entry stand for.
pub open spec fn bits_type(bits: u8) -> Option<Seq<char>> {
    if bits == 1 {
        Some("commit"@)
    } else if bits == 2 {
        Some("tree"@)
    } else if bits == 3 {
        Some("blob"@)
    } else if bits == 4 {
        Some("tag"@)
    } else {
        None
    }
}

/// The bits that stand for a type; 0 for what is not one.
pub open spec fn type_bits(kind: Seq<char>) -> u8 {
    if kind == "commit"@ {
        1
    } else if kind == "tree"@ {
        2
    } else if kind == "blob"@ {
        3
    } else if kind == "tag"@ {
        4
    } else {
        0
    }
}

/// Whether objects of this type can be stored.
pub open spec fn known_type(kind: Seq<char>) -> bool {
    type_bits(kind) != 0
}

/// A type's bits stand for it, and no other bits do.
pub proof fn type_bits_read_back(kind: Seq<char>, bits: u8)
    ensures
        known_type(kind) ==> bits_type(type_bits(kind)) == Some(kind) && type_bits(kind) < 5,
        bits_type(bits) matches Some(k) ==> type_bits(k) == bits,
{
    reveal_strlit("commit");
    reveal_strlit("tree");
    reveal_strlit("blob");
    reveal_strlit("tag");
    assert("commit"@.len() == 6 && "tree"@.len() == 4 && "tag"@.len() == 3 && "blob"@.len() == 4);
    assert("tree"@[0] != "blob"@[0]);
}

/// The type that three bits of a pack entry stand for.
pub fn type_from_bits(bits: u8) -> (r: Option<&'static str>)
    ensures
        match bits_type(bits) {
            Some(kind) => r matches Some(t) && t@ == kind,
            None => r is None,
        },
{
    if bits == 1 {
        Some("commit")
    } else if bits == 2 {
        Some("tree")
    } else if bits == 3 {
        Some("blob")
    } else if bits == 4 {
        Some("tag")
    } else {
        None
    }
}

/// The bits that stand for a type, 0 for what is not one.
fn find_type_bits(obj_type: &str) -> (r: u8)
    ensures
        r == type_bits(obj_type@),
{
    if same_text(obj_type, "commit") {
        1
    } else if same_text(obj_type, "tree") {
        2
    } else if same_text(obj_type, "blob") {
        3
    } else if same_text(obj_type, "tag") {
        4
    } else {
        0
    }
}

/// The bits that stand for a type.
pub fn type_to_bits(obj_type: &str) -> (r: u8)
    requires
        known_type(obj_type@),
    ensures
        r == type_bits(obj_type@),
        bits_type(r) == Some(obj_type@),
{
    proof {
        type_bits_read_back(obj_type@, 0);
    }
    find_type_bits(obj_type)
}

/// Whether all of these objects have types that can be stored.
pub open spec fn all_known(objects: Seq<ObjectView>) -> bool {
    forall|i: int| 0 <= i < objects.len() ==> known_type((#[trigger] objects[i]).kind)
}

/// Whether all of these objects have types that can be stored.
pub fn are_known(objects: &[PackObject]) -> (r: bool)
    ensures
        r == all_known(object_views(objects@)),
{
    let mut i: usize = 0;
    while i < objects.len()
        invariant
            i <= objects.len(),
            forall|k: int| 0 <= k < i ==> known_type((#[trigger] object_views(objects@)[k]).kind),
        decreases objects.len() - i,
    {
        if !is_known_type(objects[i].obj_type.as_str()) {
            assert(!known_type(object_views(objects@)[i as int].kind));
            return false;
        }
        i += 1;
    }
    true
}

/// Whether objects of this type can be stored.
pub fn is_known_type(obj_type: &str) -> (r: bool)
    ensures
        r == known_type(obj_type@),
{
    find_type_bits(obj_type) != 0
}

} // verus!
