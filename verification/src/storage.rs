//! The repository contract.

use crate::refs::{
    apply_updates, check_updates, current_views, ref_at, refusal_is_exact, set_refs, text_of,
    update_views, updates_go_through_exactly, updates_take_effect, RefUpdate, UpdateView,
};
use crate::encoding::{
    counted, le_bytes, le_bytes_are_unique, le_bytes_read_back, le_value, lemma_le_len,
    lemma_widths, push_counted, push_le, read_le32,
};
use crate::text::{same_bytes, same_text, text_views};
use crate::words::utf8_text;
use near_sdk::store::{IterableMap, LookupMap};
use vstd::prelude::*;
use vstd::string::*;
use vstd::utf8::{decode_utf8, encode_utf8, valid_utf8};

verus! {

/// The fee for a new repository, in yoctoNEAR: a tenth of a NEAR.
pub const SERVICE_FEE: u128 = 100_000_000_000_000_000_000_000;

/// The refs of a repository, kept by `near_sdk::store::IterableMap` in the storage of the
/// contract.
///
/// The map is held in a struct of this crate: its own type has bounds by traits that the
/// verifier does not know. There is one such map at a time, as two would share the storage.
#[verifier::external_body]
pub struct RefMap {
    map: IterableMap<String, String>,
}

/// The packs of a repository, kept by `near_sdk::store::LookupMap` in the storage of the
/// contract.
///
/// The map is held in a struct of this crate: its own type has bounds by traits that the
/// verifier does not know. There is one such map at a time, as two would share the storage.
#[verifier::external_body]
pub struct PackMap {
    map: LookupMap<u32, Vec<u8>>,
}

/// The refs that the map lists, in the order in which it walks them.
pub uninterp spec fn listed_refs(m: RefMap) -> Seq<Seq<char>>;

/// What the map has for each ref.
pub uninterp spec fn stored_refs(m: RefMap) -> Map<Seq<char>, Seq<char>>;

/// The places in the map's list at which the map finds a ref.
pub uninterp spec fn filed_refs(m: RefMap) -> Set<u32>;

/// What the map has at each place.
pub uninterp spec fn stored_packs(m: PackMap) -> Map<u32, Seq<u8>>;

/// Whether the map finds all the refs that it lists.
pub open spec fn walkable(m: RefMap) -> bool {
    forall|i: u32| i < listed_refs(m).len() ==> #[trigger] filed_refs(m).contains(i)
}

/// What is saved of a map that lists `n` refs, as it finds its contents in the storage by that:
/// the number, and the prefixes of its list and of its values with their lengths.
pub open spec fn saved_refs(n: nat) -> Seq<u8> {
    le_bytes(n, 4) + seq![2u8, 0, 0, 0, 0x52, 0x76, 2, 0, 0, 0, 0x52, 0x6d]
}

/// `IterableMap::new` with the prefix `R`: a map that lists nothing. What it has for a ref is
/// read from the storage of the contract when it is asked for, so nothing is said of that.
#[verifier::external_body]
fn refs_new() -> (r: RefMap)
    ensures
        listed_refs(r) == Seq::<Seq<char>>::empty(),
{
    RefMap { map: IterableMap::new(b"R") }
}

/// `IterableMap::get`: what the map has for a ref. What the storage holds under the prefix was
/// written by such a map, so it can be read.
#[verifier::external_body]
fn refs_get(m: &RefMap, name: &String) -> (r: Option<String>)
    ensures
        text_of(r) == ref_at(stored_refs(*m), name@),
{
    m.map.get(name).cloned()
}

/// `IterableMap::insert`: the map has the new value for the ref, and lists the ref behind all
/// others if it had nothing for it. It lists at most `u32::MAX` refs.
#[verifier::external_body]
fn refs_insert(m: &mut RefMap, name: String, sha: String)
    requires
        listed_refs(*old(m)).len() < u32::MAX,
    ensures
        stored_refs(*final(m)) == stored_refs(*old(m)).insert(name@, sha@),
        listed_refs(*final(m)) == (if stored_refs(*old(m)).contains_key(name@) {
            listed_refs(*old(m))
        } else {
            listed_refs(*old(m)).push(name@)
        }),
        filed_refs(*final(m)) == (if stored_refs(*old(m)).contains_key(name@) {
            filed_refs(*old(m))
        } else {
            filed_refs(*old(m)).insert(listed_refs(*old(m)).len() as u32)
        }),
{
    m.map.insert(name, sha);
}

/// `IterableMap::flush` and `env::storage_has_key`: whether the map finds a ref at a place in its
/// list. Once what is new in the list is written, the storage has the list under its prefix and
/// the place in four bytes. What the map holds stays as it is.
#[verifier::external_body]
fn refs_filed(m: &mut RefMap, i: u32) -> (r: bool)
    requires
        i < listed_refs(*old(m)).len(),
    ensures
        r == filed_refs(*old(m)).contains(i),
        listed_refs(*final(m)) == listed_refs(*old(m)),
        stored_refs(*final(m)) == stored_refs(*old(m)),
        filed_refs(*final(m)) == filed_refs(*old(m)),
{
    m.map.flush();
    near_sdk::env::storage_has_key(&[b"Rv".as_slice(), i.to_le_bytes().as_slice()].concat())
}

/// `IterableMap::keys`: the refs that the map lists. It finds all of them.
#[verifier::external_body]
fn refs_keys(m: &RefMap) -> (r: Vec<String>)
    requires
        walkable(*m),
    ensures
        text_views(r@) == listed_refs(*m),
{
    m.map.keys().cloned().collect()
}

/// `IterableMap::iter`: the refs that the map lists, each with what it has for it. It finds all
/// of them, and has something for each.
#[verifier::external_body]
fn refs_list(m: &RefMap) -> (r: Vec<(String, String)>)
    requires
        walkable(*m),
        forall|i: int|
            0 <= i < listed_refs(*m).len() ==> stored_refs(*m).contains_key(#[trigger] listed_refs(*m)[i]),
    ensures
        pair_views(r@) == listed_refs(*m).map_values(|name: Seq<char>| (name, stored_refs(*m)[name])),
{
    m.map.iter().map(|(name, sha)| (name.clone(), sha.clone())).collect()
}

/// `IterableMap::clear`: the map lists nothing, and has nothing for what it listed. It finds all
/// the refs that it lists.
#[verifier::external_body]
fn refs_clear(m: &mut RefMap)
    requires
        walkable(*old(m)),
    ensures
        listed_refs(*final(m)) == Seq::<Seq<char>>::empty(),
        stored_refs(*final(m)) == stored_refs(*old(m)).remove_keys(listed_refs(*old(m)).to_set()),
{
    m.map.clear();
}

/// `IterableMap::len`: the number of refs that the map lists.
#[verifier::external_body]
fn refs_len(m: &RefMap) -> (r: u32)
    ensures
        r == listed_refs(*m).len(),
{
    m.map.len()
}

/// `borsh::to_vec` of the map: the number of refs and the prefixes of its storage, but not what
/// the storage holds.
#[verifier::external_body]
fn refs_save(m: &RefMap) -> (r: Vec<u8>)
    ensures
        r@ == saved_refs(listed_refs(*m).len()),
{
    near_sdk::borsh::to_vec(&m.map).unwrap()
}

/// `borsh::from_slice` of a map: one that lists as many refs as was saved. Which these are, and
/// what it has for a ref, is read from the storage of the contract when it is asked for, so
/// nothing is said of that.
#[verifier::external_body]
fn refs_load(bytes: &[u8]) -> (r: RefMap)
    requires
        exists|n: u32| bytes@ == #[trigger] saved_refs(n as nat),
    ensures
        bytes@ == saved_refs(listed_refs(r).len()),
        listed_refs(r).len() <= u32::MAX,
{
    RefMap { map: near_sdk::borsh::from_slice(bytes).unwrap() }
}

/// `LookupMap::new` with the prefix `P`. What it has at a place is read from the storage of the
/// contract when it is asked for, so nothing is said of that.
#[verifier::external_body]
fn packs_new() -> PackMap {
    PackMap { map: LookupMap::new(b"P") }
}

/// `LookupMap::get`: what the map has at a place. What the storage holds under the prefix was
/// written by such a map, so it can be read.
#[verifier::external_body]
fn packs_get(m: &PackMap, i: u32) -> (r: Option<Vec<u8>>)
    ensures
        match r {
            Some(pack) => stored_packs(*m).contains_key(i) && pack@ == stored_packs(*m)[i],
            None => !stored_packs(*m).contains_key(i),
        },
{
    m.map.get(&i).cloned()
}

/// `LookupMap::insert`: the map has the pack at this place.
#[verifier::external_body]
fn packs_insert(m: &mut PackMap, i: u32, pack: Vec<u8>)
    ensures
        stored_packs(*final(m)) == stored_packs(*old(m)).insert(i, pack@),
{
    m.map.insert(i, pack);
}

/// `LookupMap::remove`: the map has nothing at this place.
#[verifier::external_body]
fn packs_remove(m: &mut PackMap, i: u32)
    ensures
        stored_packs(*final(m)) == stored_packs(*old(m)).remove(i),
{
    m.map.remove(&i);
}

/// Pairs of texts.
pub open spec fn pair_views(pairs: Seq<(String, String)>) -> Seq<(Seq<char>, Seq<char>)> {
    pairs.map_values(|p: (String, String)| (p.0@, p.1@))
}

/// A repository: refs and packs, in the storage of a contract that one account owns.
pub struct GitStorage {
    refs: RefMap,
    packs: PackMap,
    pack_count: u32,
    owner: String,
}

/// The model of a repository.
#[verifier::ext_equal]
pub struct RepoView {
    /// The refs that are listed, in order.
    pub listed: Seq<Seq<char>>,
    /// What each ref points to.
    pub refs: Map<Seq<char>, Seq<char>>,
    /// The packs, in the order in which they were pushed.
    pub packs: Seq<Seq<u8>>,
    /// The account that owns the repository.
    pub owner: Seq<char>,
}

/// The refs that are listed once the updates are made: those before, and behind them those that
/// the updates create.
pub open spec fn list_updates(
    listed: Seq<Seq<char>>,
    refs: Map<Seq<char>, Seq<char>>,
    updates: Seq<UpdateView>,
) -> Seq<Seq<char>>
    decreases updates.len(),
{
    if updates.len() == 0 {
        listed
    } else {
        let before = updates.drop_last();
        let name = updates.last().name;
        let so_far = list_updates(listed, refs, before);
        if set_refs(refs, before).contains_key(name) {
            so_far
        } else {
            so_far.push(name)
        }
    }
}

impl RepoView {
    /// Whether every ref that is listed points somewhere.
    pub open spec fn grounded(self) -> bool {
        forall|i: int|
            0 <= i < self.listed.len() ==> self.refs.contains_key(#[trigger] self.listed[i])
    }

    /// Whether every ref that is listed points somewhere, and none is listed twice.
    pub open spec fn wf(self) -> bool {
        self.grounded() && self.listed.no_duplicates()
    }

    /// Whether every ref that points somewhere is listed. It is so as long as nothing but this
    /// contract has written to its storage.
    pub open spec fn complete(self) -> bool {
        forall|name: Seq<char>| #[trigger] self.refs.contains_key(name) ==> self.listed.contains(name)
    }

    /// The repository with these updates made and this pack behind the others, unless it is
    /// empty.
    pub open spec fn pushed(self, pack: Seq<u8>, updates: Seq<UpdateView>) -> RepoView {
        RepoView {
            listed: list_updates(self.listed, self.refs, updates),
            refs: set_refs(self.refs, updates),
            packs: if pack.len() == 0 {
                self.packs
            } else {
                self.packs.push(pack)
            },
            owner: self.owner,
        }
    }
}

/// The message for a caller who does not own the repository.
pub open spec fn owner_message() -> Seq<char> {
    "Only the owner can perform this action"@
}

/// Whether a caller owns the repository, and if not, what they are told.
pub fn check_owner(owner: &str, caller: &str) -> (r: Result<(), String>)
    ensures
        match r {
            Ok(()) => caller@ == owner@,
            Err(e) => caller@ != owner@ && e@ == owner_message(),
        },
{
    if same_text(caller, owner) {
        Ok(())
    } else {
        Err("Only the owner can perform this action".to_owned())
    }
}

/// Why a push is refused, if it is.
pub open spec fn push_refusal(
    repo: RepoView,
    caller: Seq<char>,
    updates: Seq<UpdateView>,
) -> Option<Seq<char>> {
    if caller != repo.owner {
        Some(owner_message())
    } else {
        match apply_updates(repo.refs, updates) {
            Ok(_) => None,
            Err(m) => Some(m),
        }
    }
}

/// A payment that a call makes.
#[derive(Debug)]
pub struct Transfer {
    /// The account that is paid.
    pub to: String,
    /// The amount in yoctoNEAR.
    pub amount: u128,
}

/// The deletion of an account that a call asks for.
#[derive(Debug)]
pub struct Deletion {
    /// The account that is deleted.
    pub account: String,
    /// The account that gets what is left.
    pub beneficiary: String,
}

proof fn lemma_list_updates(repo: RepoView, updates: Seq<UpdateView>)
    ensures
        repo.grounded() ==> repo.pushed(Seq::empty(), updates).grounded(),
        repo.wf() ==> repo.pushed(Seq::empty(), updates).wf(),
        repo.pushed(Seq::empty(), updates).listed.len() <= repo.listed.len() + updates.len(),
        repo.listed.len() <= repo.pushed(Seq::empty(), updates).listed.len(),
    decreases updates.len(),
{
    if updates.len() > 0 {
        lemma_list_updates(repo, updates.drop_last());
    }
}

proof fn lemma_list_complete(repo: RepoView, updates: Seq<UpdateView>)
    requires
        repo.complete(),
    ensures
        repo.pushed(Seq::empty(), updates).complete(),
    decreases updates.len(),
{
    if updates.len() > 0 {
        let before = updates.drop_last();
        let name = updates.last().name;
        let so_far = repo.pushed(Seq::empty(), before);
        let now = repo.pushed(Seq::empty(), updates);
        lemma_list_complete(repo, before);
        assert forall|n: Seq<char>| #[trigger] now.refs.contains_key(n) implies now.listed.contains(n) by {
            if so_far.refs.contains_key(n) {
                assert(so_far.listed.contains(n));
                let i = choose|i: int| 0 <= i < so_far.listed.len() && so_far.listed[i] == n;
                assert(now.listed[i] == n);
            } else {
                assert(n == name);
                assert(now.listed.last() == n);
            }
        }
    }
}

/// A push keeps a repository in order, and lists every ref that it creates.
pub proof fn push_keeps_order(repo: RepoView, pack: Seq<u8>, updates: Seq<UpdateView>)
    requires
        repo.wf(),
    ensures
        repo.pushed(pack, updates).wf(),
        repo.complete() ==> repo.pushed(pack, updates).complete(),
{
    lemma_list_updates(repo, updates);
    assert(repo.pushed(pack, updates).refs == repo.pushed(Seq::empty(), updates).refs);
    assert(repo.pushed(pack, updates).listed == repo.pushed(Seq::empty(), updates).listed);
    if repo.complete() {
        lemma_list_complete(repo, updates);
    }
}

/// A client that has the packs up to some place gets, from there on, just those that were
/// pushed since.
pub proof fn packs_are_incremental(
    repo: RepoView,
    pack: Seq<u8>,
    updates: Seq<UpdateView>,
    from: int,
)
    requires
        0 <= from <= repo.packs.len(),
    ensures
        repo.pushed(pack, updates).packs.take(repo.packs.len() as int) == repo.packs,
        repo.pushed(pack, updates).packs.skip(from) == repo.packs.skip(from) + (if pack.len() == 0 {
            Seq::empty()
        } else {
            seq![pack]
        }),
{
    assert(repo.pushed(pack, updates).packs.take(repo.packs.len() as int) =~= repo.packs);
    assert(repo.pushed(pack, updates).packs.skip(from) =~= repo.packs.skip(from) + (if pack.len() == 0 {
        Seq::empty()
    } else {
        seq![pack]
    }));
}

/// A push goes through just when the owner makes it and each of its updates expects what its ref
/// points to once those before it are made.
pub proof fn push_goes_through_exactly(
    repo: RepoView,
    caller: Seq<char>,
    updates: Seq<UpdateView>,
)
    ensures
        push_refusal(repo, caller, updates) is None <==> caller == repo.owner && forall|i: int|
            0 <= i < updates.len() ==> (#[trigger] updates[i]).old == ref_at(
                repo.pushed(Seq::empty(), updates.take(i)).refs,
                updates[i].name,
            ),
        caller != repo.owner ==> push_refusal(repo, caller, updates) == Some(
            "Only the owner can perform this action"@,
        ),
{
    updates_go_through_exactly(repo.refs, updates);
    if forall|i: int|
        0 <= i < updates.len() ==> (#[trigger] updates[i]).old == ref_at(
            repo.pushed(Seq::empty(), updates.take(i)).refs,
            updates[i].name,
        ) {
        assert forall|i: int| 0 <= i < updates.len() implies (#[trigger] updates[i]).old == ref_at(
            set_refs(repo.refs, updates.take(i)),
            updates[i].name,
        ) by {
            assert(repo.pushed(Seq::empty(), updates.take(i)).refs == set_refs(
                repo.refs,
                updates.take(i),
            ));
        }
    }
}

/// What a push leaves behind. A ref that none of its updates names is as before, and one that some
/// name points to what the last of these says. The refs that were listed stay listed, first and in
/// their order, and so does the owner; those that it creates come behind them. The packs that were
/// there stay, first and in their order, and the new one comes behind them, unless it is empty.
pub proof fn push_leaves_behind(
    repo: RepoView,
    pack: Seq<u8>,
    updates: Seq<UpdateView>,
    name: Seq<char>,
    i: int,
)
    requires
        0 <= i <= updates.len(),
        forall|k: int| i <= k < updates.len() ==> (#[trigger] updates[k]).name != name,
        i > 0 ==> updates[i - 1].name == name,
    ensures
        ({
            let now = repo.pushed(pack, updates);
            &&& ref_at(now.refs, name) == (if i == 0 {
                ref_at(repo.refs, name)
            } else {
                Some(updates[i - 1].new)
            })
            &&& repo.listed.len() <= now.listed.len()
            &&& now.listed.take(repo.listed.len() as int) == repo.listed
            &&& now.listed.skip(repo.listed.len() as int).contains(name) ==> i > 0
                && !repo.refs.contains_key(name)
            &&& i > 0 && !repo.refs.contains_key(name) ==> now.listed.contains(name)
            &&& now.owner == repo.owner
            &&& now.packs == repo.packs + (if pack.len() == 0 {
                Seq::empty()
            } else {
                seq![pack]
            })
        }),
{
    updates_take_effect(repo.refs, updates, name, i);
    lemma_listing(repo.listed, repo.refs, updates, name, i);
    assert(repo.pushed(pack, updates).packs =~= repo.packs + (if pack.len() == 0 {
        Seq::empty()
    } else {
        seq![pack]
    }));
}

proof fn lemma_listing(
    listed: Seq<Seq<char>>,
    refs: Map<Seq<char>, Seq<char>>,
    updates: Seq<UpdateView>,
    name: Seq<char>,
    i: int,
)
    requires
        0 <= i <= updates.len(),
        forall|k: int| i <= k < updates.len() ==> (#[trigger] updates[k]).name != name,
        i > 0 ==> updates[i - 1].name == name,
    ensures
        ({
            let now = list_updates(listed, refs, updates);
            &&& listed.len() <= now.len()
            &&& now.take(listed.len() as int) == listed
            &&& now.skip(listed.len() as int).contains(name) ==> i > 0 && !refs.contains_key(name)
            &&& i > 0 && !refs.contains_key(name) ==> now.contains(name)
            &&& set_refs(refs, updates).contains_key(name) == (i > 0 || refs.contains_key(name))
        }),
    decreases updates.len(),
{
    let now = list_updates(listed, refs, updates);
    if updates.len() == 0 {
        assert(now.take(listed.len() as int) =~= listed);
        assert(now.skip(listed.len() as int) =~= Seq::empty());
    } else {
        let n = updates.len();
        let before = updates.drop_last();
        let last = updates.last().name;
        assert(updates.last() == updates[n - 1]);
        let j = if i < n {
            i
        } else {
            lemma_last_naming(before, name)
        };
        assert forall|k: int| j <= k < before.len() implies (#[trigger] before[k]).name != name by {
            if i < n {
                assert(updates[k].name != name);
            }
        }
        lemma_listing(listed, refs, before, name, j);
        let so_far = list_updates(listed, refs, before);
        assert(now.take(listed.len() as int) =~= so_far.take(listed.len() as int));
        if so_far.contains(name) {
            let k = choose|k: int| 0 <= k < so_far.len() && so_far[k] == name;
            assert(now[k] == name);
        }
        if now.len() > so_far.len() {
            assert(now.last() == last);
            let (x, y) = (now.skip(listed.len() as int), so_far.skip(listed.len() as int));
            assert(x =~= y.push(last));
            if x.contains(name) {
                let k = choose|k: int| 0 <= k < x.len() && x[k] == name;
                if k < y.len() {
                    assert(y[k] == name);
                    assert(y.contains(name));
                }
            }
        }
    }
}

/// The number of updates up to the last that names a ref.
proof fn lemma_last_naming(updates: Seq<UpdateView>, name: Seq<char>) -> (i: int)
    ensures
        0 <= i <= updates.len(),
        forall|k: int| i <= k < updates.len() ==> (#[trigger] updates[k]).name != name,
        i > 0 ==> updates[i - 1].name == name,
    decreases updates.len(),
{
    if updates.len() == 0 {
        0
    } else if updates.last().name == name {
        updates.len() as int
    } else {
        let i = lemma_last_naming(updates.drop_last(), name);
        assert forall|k: int| i <= k < updates.len() implies (#[trigger] updates[k]).name != name by {
            if k < updates.len() - 1 {
                assert(updates.drop_last()[k] == updates[k]);
            }
        }
        i
    }
}

/// The owner of a new repository, or why it is not set up.
pub open spec fn new_owner(
    predecessor: Seq<char>,
    owner: Option<Seq<char>>,
    factory: Option<Seq<char>>,
    signer: Seq<char>,
) -> Result<Seq<char>, Seq<char>> {
    if factory is Some && factory != Some(predecessor) {
        Err("Only the factory can initialize its repositories"@)
    } else {
        match owner {
            Some(account) => Ok(account),
            None => Ok(signer),
        }
    }
}

impl View for GitStorage {
    type V = RepoView;

    closed spec fn view(&self) -> RepoView {
        RepoView {
            listed: listed_refs(self.refs),
            refs: stored_refs(self.refs),
            packs: Seq::new(self.pack_count as nat, |i: int| stored_packs(self.packs)[i as u32]),
            owner: self.owner@,
        }
    }
}

/// The owner of a new repository is the one that is named, else the one that signed. Where a
/// factory is named, nobody but that factory sets the repository up.
pub proof fn new_owner_is_named_or_signed(
    predecessor: Seq<char>,
    owner: Option<Seq<char>>,
    factory: Seq<char>,
    signer: Seq<char>,
)
    ensures
        owner matches Some(account) ==> new_owner(predecessor, owner, None, signer) == Ok::<
            Seq<char>,
            Seq<char>,
        >(account),
        new_owner(predecessor, None, None, signer) == Ok::<Seq<char>, Seq<char>>(signer),
        predecessor == factory ==> new_owner(predecessor, owner, Some(factory), signer)
            == new_owner(predecessor, owner, None, signer),
        predecessor != factory ==> new_owner(predecessor, owner, Some(factory), signer) is Err,
{
}

/// The packs from a place on are those at the places from there on, in their order, without the
/// places that have none.
pub proof fn packs_are_taken_in_turn(places: Map<u32, Seq<u8>>, from: u32, to: u32)
    ensures
        from >= to ==> packs_at(places, from as int, to as int) == Seq::<Seq<u8>>::empty(),
        from <= to < u32::MAX && places.contains_key(to) ==> packs_at(places, from as int, to + 1)
            == packs_at(places, from as int, to as int).push(places[to]),
        from <= to < u32::MAX && !places.contains_key(to) ==> packs_at(places, from as int, to + 1)
            == packs_at(places, from as int, to as int),
{
}

/// Whether no text occurs twice.
fn all_differ(texts: &Vec<String>) -> (r: bool)
    ensures
        r == text_views(texts@).no_duplicates(),
{
    let ghost views = text_views(texts@);
    let mut i: usize = 0;
    while i < texts.len()
        invariant
            i <= texts.len(),
            views == text_views(texts@),
            forall|a: int, b: int|
                #![trigger views[a], views[b]]
                0 <= a < b < views.len() && a < i ==> views[a] != views[b],
        decreases texts.len() - i,
    {
        let mut j: usize = i + 1;
        while j < texts.len()
            invariant
                i < j <= texts.len(),
                views == text_views(texts@),
                forall|b: int| i < b < j ==> views[i as int] != #[trigger] views[b],
            decreases texts.len() - j,
        {
            if same_text(texts[i].as_str(), texts[j].as_str()) {
                assert(views[i as int] == views[j as int]);
                return false;
            }
            assert(views[i as int] != views[j as int]);
            j += 1;
        }
        i += 1;
    }
    true
}

/// The packs at the places from `from` to before `to`, without those places that have none.
pub open spec fn packs_at(places: Map<u32, Seq<u8>>, from: int, to: int) -> Seq<Seq<u8>>
    decreases to - from,
{
    if from >= to {
        Seq::empty()
    } else {
        let before = packs_at(places, from, to - 1);
        if places.contains_key((to - 1) as u32) {
            before.push(places[(to - 1) as u32])
        } else {
            before
        }
    }
}

/// Where no place is without a pack, the packs at some places are as many.
proof fn lemma_packs_at(places: Map<u32, Seq<u8>>, packs: Seq<Seq<u8>>, from: int, to: int)
    requires
        0 <= from <= to <= packs.len() <= u32::MAX,
        forall|i: u32| i < packs.len() ==> #[trigger] places.contains_key(i),
        forall|i: int| 0 <= i < packs.len() ==> #[trigger] packs[i] == places[i as u32],
    ensures
        packs_at(places, from, to) == packs.subrange(from, to),
    decreases to - from,
{
    if from < to {
        lemma_packs_at(places, packs, from, to - 1);
        assert(places.contains_key((to - 1) as u32));
        assert(packs.subrange(from, to) =~= packs.subrange(from, to - 1).push(packs[to - 1]));
    } else {
        assert(packs.subrange(from, to) =~= Seq::empty());
    }
}

impl GitStorage {
    /// Whether the refs can be listed: all of them are found, and point somewhere.
    pub closed spec fn listable(&self) -> bool {
        walkable(self.refs) && self@.grounded()
    }

    /// Whether the repository is in order: its refs can be listed, none of them twice, and every
    /// pack that it counts is there.
    pub closed spec fn wf(&self) -> bool {
        &&& self.listable()
        &&& self@.wf()
        &&& forall|i: u32| i < self.pack_count ==> #[trigger] stored_packs(self.packs).contains_key(i)
    }

    /// The refs of a repository in order can be listed.
    pub proof fn in_order_is_listable(&self)
        requires
            self.wf(),
        ensures
            self.listable(),
            self@.wf(),
    {
    }

    fn are_grounded(&self) -> (r: bool)
        requires
            walkable(self.refs),
        ensures
            r == self@.grounded(),
    {
        let names = refs_keys(&self.refs);
        let mut i: usize = 0;
        while i < names.len()
            invariant
                i <= names.len(),
                text_views(names@) == self@.listed,
                forall|k: int| 0 <= k < i ==> self@.refs.contains_key(#[trigger] self@.listed[k]),
            decreases names.len() - i,
        {
            assert(self@.listed[i as int] == names@[i as int]@);
            if refs_get(&self.refs, &names[i]).is_none() {
                return false;
            }
            i += 1;
        }
        true
    }

    fn are_packs_there(&self) -> (r: bool)
        ensures
            r == forall|i: u32|
                i < self.pack_count ==> #[trigger] stored_packs(self.packs).contains_key(i),
    {
        let mut i: u32 = 0;
        while i < self.pack_count
            invariant
                i <= self.pack_count,
                forall|k: u32| k < i ==> #[trigger] stored_packs(self.packs).contains_key(k),
            decreases self.pack_count - i,
        {
            if packs_get(&self.packs, i).is_none() {
                return false;
            }
            i += 1;
        }
        true
    }

    /// Whether the refs can be listed, as the storage has it. What is new in them is written to
    /// the storage.
    pub fn is_listable(&mut self) -> (r: bool)
        ensures
            r == old(self).listable(),
            final(self).listable() == old(self).listable(),
            final(self).wf() == old(self).wf(),
            final(self)@ == old(self)@,
            final(self).places() == old(self).places(),
    {
        let count: u32 = refs_len(&self.refs);
        let mut i: u32 = 0;
        while i < count
            invariant
                i <= count,
                count == listed_refs(self.refs).len(),
                listed_refs(self.refs) == listed_refs(old(self).refs),
                stored_refs(self.refs) == stored_refs(old(self).refs),
                filed_refs(self.refs) == filed_refs(old(self).refs),
                self.packs == old(self).packs,
                self.pack_count == old(self).pack_count,
                self.owner == old(self).owner,
                forall|k: u32| k < i ==> #[trigger] filed_refs(self.refs).contains(k),
            decreases count - i,
        {
            if !refs_filed(&mut self.refs, i) {
                assert(self@ =~= old(self)@);
                return false;
            }
            i += 1;
        }
        assert(self@ =~= old(self)@);
        self.are_grounded()
    }

    /// Whether the repository is in order, as the storage has it. What is new in its refs is
    /// written to the storage.
    pub fn is_in_order(&mut self) -> (r: bool)
        ensures
            r == old(self).wf(),
            r ==> final(self).listable(),
            final(self).wf() == old(self).wf(),
            final(self).listable() == old(self).listable(),
            final(self)@ == old(self)@,
            final(self).places() == old(self).places(),
    {
        if !self.is_listable() {
            return false;
        }
        let names = refs_keys(&self.refs);
        all_differ(&names) && self.are_packs_there()
    }

    /// What the storage has at each place, those of the packs among them.
    pub closed spec fn places(&self) -> Map<u32, Seq<u8>> {
        stored_packs(self.packs)
    }

    /// A new repository, owned by `owner`, else by the account that signed for it, and the fee
    /// for it. It lists no refs and has no packs. When it is said to come from a factory, only
    /// that factory may set it up.
    pub fn new(
        predecessor: &str,
        owner: Option<String>,
        factory: Option<String>,
        signer: String,
        fee_recipient: String,
    ) -> (r: Result<(GitStorage, Transfer), String>)
        ensures
            match new_owner(predecessor@, text_of(owner), text_of(factory), signer@) {
                Ok(account) => r matches Ok((repo, fee)) && repo.wf() && repo.listable() && repo@.listed == Seq::<
                    Seq<char>,
                >::empty() && repo@.packs == Seq::<Seq<u8>>::empty() && repo@.owner == account
                    && fee.to@ == fee_recipient@ && fee.amount == SERVICE_FEE && (encode_utf8(
                    account,
                ).len() <= u32::MAX ==> repo.loadable()),
                Err(m) => r matches Err(e) && e@ == m,
            },
    {
        if let Some(factory) = &factory {
            if !same_text(predecessor, factory.as_str()) {
                return Err("Only the factory can initialize its repositories".to_owned());
            }
        }
        let fee = Transfer { to: fee_recipient, amount: SERVICE_FEE };
        let owner = match owner {
            Some(owner) => owner,
            None => signer,
        };
        let repo = GitStorage { refs: refs_new(), packs: packs_new(), pack_count: 0, owner };
        assert(repo@.packs =~= Seq::empty());
        Ok((repo, fee))
    }

    /// What the refs of some updates point to.
    fn current_values(&self, updates: &Vec<RefUpdate>) -> (r: Vec<Option<String>>)
        ensures
            r.len() == updates.len(),
            forall|i: int|
                0 <= i < updates.len() ==> #[trigger] current_views(r@)[i] == ref_at(
                    self@.refs,
                    update_views(updates@)[i].name,
                ),
    {
        let mut current: Vec<Option<String>> = Vec::new();
        let mut i: usize = 0;
        while i < updates.len()
            invariant
                i <= updates.len(),
                current.len() == i,
                forall|k: int|
                    0 <= k < i ==> #[trigger] current_views(current@)[k] == ref_at(
                        self@.refs,
                        update_views(updates@)[k].name,
                    ),
            decreases updates.len() - i,
        {
            let ghost before = current@;
            current.push(refs_get(&self.refs, &updates[i].name));
            assert forall|k: int| 0 <= k < i + 1 implies #[trigger] current_views(current@)[k] == ref_at(
                self@.refs,
                update_views(updates@)[k].name,
            ) by {
                if k < i {
                    assert(current_views(current@)[k] == current_views(before)[k]);
                }
            }
            i += 1;
        }
        current
    }

    /// Stores a pack and updates refs, all or nothing. Only the owner may, and every ref has to
    /// be what its update expects. An empty pack is not stored.
    pub fn push(
        &mut self,
        caller: &str,
        pack_data: Vec<u8>,
        ref_updates: Vec<RefUpdate>,
    ) -> (r: Result<(), String>)
        requires
            pack_data@.len() > 0 ==> old(self)@.packs.len() < u32::MAX,
            old(self)@.listed.len() + ref_updates@.len() <= u32::MAX,
        ensures
            old(self).wf() ==> final(self).wf(),
            old(self).listable() ==> final(self).listable(),
            old(self).loadable() ==> final(self).loadable(),
            match push_refusal(old(self)@, caller@, update_views(ref_updates@)) {
                None => r is Ok && final(self)@ == old(self)@.pushed(
                    pack_data@,
                    update_views(ref_updates@),
                ),
                Some(m) => (r matches Err(e) && e@ == m) && final(self)@ == old(self)@,
            },
            final(self).places() == (if r is Ok && pack_data@.len() > 0 {
                old(self).places().insert(old(self)@.packs.len() as u32, pack_data@)
            } else {
                old(self).places()
            }),
    {
        if let Err(e) = check_owner(self.owner.as_str(), caller) {
            return Err(e);
        }
        let ghost updates = update_views(ref_updates@);
        let ghost repo = self@;
        let current = self.current_values(&ref_updates);
        proof {
            refusal_is_exact(repo.refs, current_views(current@), updates);
        }
        if let Err(e) = check_updates(&current, &ref_updates) {
            return Err(e);
        }
        self.store_pack(pack_data);
        self.set_all(&ref_updates);
        Ok(())
    }

    /// Whether a push of this pack and these updates is within the limits of the contract: it
    /// counts packs and refs in 32 bits.
    pub fn has_room(&self, pack_data: &Vec<u8>, ref_updates: &Vec<RefUpdate>) -> (r: bool)
        ensures
            r == ((pack_data@.len() > 0 ==> self@.packs.len() < u32::MAX) && self@.listed.len()
                + ref_updates@.len() <= u32::MAX),
    {
        if pack_data.len() > 0 && self.pack_count == u32::MAX {
            return false;
        }
        ref_updates.len() as u128 + refs_len(&self.refs) as u128 <= u32::MAX as u128
    }

    fn store_pack(&mut self, pack: Vec<u8>)
        requires
            pack@.len() > 0 ==> old(self)@.packs.len() < u32::MAX,
        ensures
            old(self).wf() ==> final(self).wf(),
            old(self).listable() ==> final(self).listable(),
            old(self).loadable() ==> final(self).loadable(),
            final(self)@ == old(self)@.pushed(pack@, Seq::empty()),
            final(self).places() == (if pack@.len() > 0 {
                old(self).places().insert(old(self)@.packs.len() as u32, pack@)
            } else {
                old(self).places()
            }),
    {
        if pack.len() > 0 {
            let ghost bytes = pack@;
            packs_insert(&mut self.packs, self.pack_count, pack);
            self.pack_count += 1;
            assert(self@.packs =~= old(self)@.packs.push(bytes));
        }
        assert(self@ =~= old(self)@.pushed(pack@, Seq::empty()));
    }

    /// Makes the updates without a look at what they expect.
    fn set_all(&mut self, updates: &Vec<RefUpdate>)
        requires
            old(self)@.listed.len() + updates@.len() <= u32::MAX,
        ensures
            old(self).wf() ==> final(self).wf(),
            old(self).listable() ==> final(self).listable(),
            old(self).loadable() ==> final(self).loadable(),
            final(self)@ == old(self)@.pushed(Seq::empty(), update_views(updates@)),
            final(self).places() == old(self).places(),
    {
        let ghost repo = self@;
        let ghost all = update_views(updates@);
        let mut i: usize = 0;
        assert(all.take(0) =~= Seq::empty());
        while i < updates.len()
            invariant
                i <= updates.len(),
                all == update_views(updates@),
                repo == old(self)@,
                repo.listed.len() + updates@.len() <= u32::MAX,
                self@ == repo.pushed(Seq::empty(), all.take(i as int)),
                walkable(old(self).refs) ==> walkable(self.refs),
                self.packs == old(self).packs,
                self.pack_count == old(self).pack_count,
                self.owner == old(self).owner,
            decreases updates.len() - i,
        {
            proof {
                lemma_list_updates(repo, all.take(i as int));
                assert(all.take(i + 1).drop_last() =~= all.take(i as int));
                assert(all.take(i + 1).last() == updates@[i as int]@);
            }
            let ghost packs = self@.packs;
            refs_insert(&mut self.refs, updates[i].name.clone(), updates[i].new_sha.clone());
            assert(self@.packs =~= packs);
            assert(self@ =~= repo.pushed(Seq::empty(), all.take(i + 1)));
            i += 1;
        }
        assert(all.take(i as int) =~= all);
        proof {
            lemma_list_updates(repo, all);
        }
    }

    /// All refs that are listed, each with what it points to.
    pub fn get_refs(&self) -> (r: Vec<(String, String)>)
        requires
            self.listable(),
        ensures
            pair_views(r@) == self@.listed.map_values(|name: Seq<char>| (name, self@.refs[name])),
    {
        assert forall|i: int| 0 <= i < listed_refs(self.refs).len() implies stored_refs(
            self.refs,
        ).contains_key(#[trigger] listed_refs(self.refs)[i]) by {
            assert(self@.refs.contains_key(self@.listed[i]));
        }
        refs_list(&self.refs)
    }

    /// The number of packs.
    pub fn get_pack_count(&self) -> (r: u32)
        ensures
            r == self@.packs.len(),
    {
        self.pack_count
    }

    /// The packs from a place on: all of them from 0, and the new ones from the first that the
    /// caller has not seen. A place where the storage has none is passed over.
    pub fn get_packs(&self, from_index: u32) -> (r: Vec<Vec<u8>>)
        ensures
            pack_views(r@) == packs_at(self.places(), from_index as int, self@.packs.len() as int),
            self.wf() ==> pack_views(r@) == (if from_index <= self@.packs.len() {
                self@.packs.skip(from_index as int)
            } else {
                Seq::empty()
            }),
    {
        let mut packs: Vec<Vec<u8>> = Vec::new();
        let mut i: u32 = from_index;
        assert(pack_views(packs@) =~= Seq::empty());
        while i < self.pack_count
            invariant
                from_index <= i,
                i <= self.pack_count || i == from_index,
                pack_views(packs@) == packs_at(self.places(), from_index as int, i as int),
            decreases self.pack_count - i,
        {
            let ghost before = pack_views(packs@);
            if let Some(pack) = packs_get(&self.packs, i) {
                packs.push(pack);
                assert(pack_views(packs@) =~= before.push(pack@));
            }
            i += 1;
        }
        proof {
            if self.wf() && from_index <= self.pack_count {
                let n = self@.packs.len() as int;
                lemma_packs_at(self.places(), self@.packs, from_index as int, n);
                assert(self@.packs.subrange(from_index as int, n) =~= self@.packs.skip(
                    from_index as int,
                ));
            }
        }
        packs
    }

    /// The account that owns the repository.
    pub fn get_owner(&self) -> (r: String)
        ensures
            r@ == self@.owner,
    {
        self.owner.clone()
    }

    /// Asks for the deletion of the repository's account, what is left to go to the owner. Only
    /// the owner may.
    pub fn self_delete(
        &mut self,
        caller: &str,
        current_account: &str,
    ) -> (r: Result<Deletion, String>)
        ensures
            final(self)@ == old(self)@,
            final(self).places() == old(self).places(),
            final(self).wf() == old(self).wf(),
            final(self).listable() == old(self).listable(),
            if caller@ == old(self)@.owner {
                r matches Ok(d) && d.account@ == current_account@ && d.beneficiary@ == old(self)@.owner
            } else {
                r matches Err(e) && e@ == owner_message()
            },
    {
        match check_owner(self.owner.as_str(), caller) {
            Err(e) => Err(e),
            Ok(()) => Ok(
                Deletion { account: current_account.to_owned(), beneficiary: self.owner.clone() },
            ),
        }
    }

    /// Clears the storage, so that the account of a large repository can be deleted: no ref is
    /// listed and no pack is left. Only the owner may.
    pub fn clear_storage(&mut self, caller: &str) -> (r: Result<(), String>)
        requires
            old(self).listable(),
        ensures
            old(self).wf() || r is Ok ==> final(self).wf(),
            final(self).listable(),
            old(self).loadable() ==> final(self).loadable(),
            if caller@ == old(self)@.owner {
                &&& r is Ok
                &&& final(self)@.listed == Seq::<Seq<char>>::empty()
                &&& final(self)@.refs == old(self)@.refs.remove_keys(old(self)@.listed.to_set())
                &&& final(self)@.packs == Seq::<Seq<u8>>::empty()
                &&& forall|i: u32|
                    #[trigger] final(self).places().contains_key(i) <==> old(self).places().contains_key(i)
                        && i >= old(self)@.packs.len()
                &&& final(self)@.owner == old(self)@.owner
            } else {
                (r matches Err(e) && e@ == owner_message()) && final(self)@ == old(self)@
                    && final(self).places() == old(self).places()
            },
    {
        if let Err(e) = check_owner(self.owner.as_str(), caller) {
            return Err(e);
        }
        refs_clear(&mut self.refs);
        let mut i: u32 = 0;
        while i < self.pack_count
            invariant
                i <= self.pack_count,
                listed_refs(self.refs) == Seq::<Seq<char>>::empty(),
                stored_refs(self.refs) == old(self)@.refs.remove_keys(old(self)@.listed.to_set()),
                self.owner == old(self).owner,
                self.pack_count == old(self).pack_count,
                forall|k: u32|
                    #[trigger] stored_packs(self.packs).contains_key(k) <==> stored_packs(
                        old(self).packs,
                    ).contains_key(k) && k >= i,
            decreases self.pack_count - i,
        {
            packs_remove(&mut self.packs, i);
            i += 1;
        }
        self.pack_count = 0;
        assert(self@.packs =~= Seq::empty());
        Ok(())
    }
}

/// What is saved of a repository between calls: the refs' map, the packs' map, which is its
/// prefix, the number of packs and the owner.
pub open spec fn state_bytes(ref_count: nat, pack_count: u32, owner: Seq<char>) -> Seq<u8> {
    saved_refs(ref_count) + counted(seq![0x50u8]) + le_bytes(pack_count as nat, 4) + counted(
        encode_utf8(owner),
    )
}

/// What is saved between the number of refs and that of packs.
spec fn prefixes() -> Seq<u8> {
    seq![2u8, 0, 0, 0, 0x52, 0x76, 2, 0, 0, 0, 0x52, 0x6d, 1, 0, 0, 0, 0x50]
}

/// Where the parts of what is saved are.
proof fn lemma_state_parts(ref_count: nat, pack_count: u32, owner: Seq<char>)
    ensures
        ({
            let s = state_bytes(ref_count, pack_count, owner);
            let text = encode_utf8(owner);
            &&& s.len() == 29 + text.len()
            &&& s.subrange(0, 4) == le_bytes(ref_count, 4)
            &&& s.subrange(4, 21) == prefixes()
            &&& s.subrange(21, 25) == le_bytes(pack_count as nat, 4)
            &&& s.subrange(25, 29) == le_bytes(text.len(), 4)
            &&& s.subrange(29, s.len() as int) == text
        }),
{
    let s = state_bytes(ref_count, pack_count, owner);
    let text = encode_utf8(owner);
    lemma_le_len(ref_count, 4);
    lemma_le_len(pack_count as nat, 4);
    lemma_le_len(text.len(), 4);
    assert(le_bytes(1, 4) =~= seq![1u8, 0, 0, 0]) by {
        reveal_with_fuel(le_bytes, 5);
    }
    assert(s.subrange(0, 4) =~= le_bytes(ref_count, 4));
    assert(s.subrange(4, 21) =~= prefixes());
    assert(s.subrange(21, 25) =~= le_bytes(pack_count as nat, 4));
    assert(s.subrange(25, 29) =~= le_bytes(text.len(), 4));
    assert(s.subrange(29, s.len() as int) =~= text);
}

/// What was saved has these parts.
proof fn lemma_saved(s: GitStorage)
    requires
        s.loadable(),
    ensures
        ({
            let b = s.state();
            let n = b.len() - 29;
            &&& 0 <= n <= u32::MAX
            &&& b.subrange(4, 21) == prefixes()
            &&& b.subrange(25, 29) == le_bytes(n as nat, 4)
            &&& valid_utf8(b.subrange(29, b.len() as int))
        }),
{
    broadcast use vstd::utf8::encode_utf8_valid_utf8;

    lemma_state_parts(s@.listed.len(), s.pack_count, s.owner@);
    assert(valid_utf8(encode_utf8(s.owner@)));
}

impl GitStorage {
    /// What is saved of the repository between calls.
    pub open spec fn state(&self) -> Seq<u8> {
        state_bytes(self@.listed.len(), self@.packs.len() as u32, self@.owner)
    }

    /// Whether the repository can be loaded from what is saved of it: the number of its refs and
    /// the length of its owner's name fit in 32 bits.
    pub open spec fn loadable(&self) -> bool {
        self@.listed.len() <= u32::MAX && encode_utf8(self@.owner).len() <= u32::MAX
    }

    /// What is saved of the repository between calls. What its storage holds stays there.
    pub fn save(&self) -> (r: Vec<u8>)
        ensures
            r@ == self.state(),
    {
        let mut bytes = refs_save(&self.refs);
        let prefix: [u8; 1] = [0x50];
        assert(prefix@ =~= seq![0x50u8]);
        push_counted(&mut bytes, &prefix);
        push_le(&mut bytes, self.pack_count as u128, 4);
        push_counted(&mut bytes, self.owner.as_str().as_bytes());
        bytes
    }

    /// The repository that was saved as these bytes: `None` when none was. Its refs and packs
    /// are what the storage holds.
    pub fn load(bytes: &[u8]) -> (r: Option<GitStorage>)
        ensures
            match r {
                Some(s) => s.state() == bytes@ && s.loadable(),
                None => forall|s: GitStorage| s.loadable() ==> #[trigger] s.state() != bytes@,
            },
    {
        assert forall|s: GitStorage| s.loadable() && #[trigger] s.state() == bytes@ implies {
            let n = bytes@.len() - 29;
            &&& 0 <= n <= u32::MAX
            &&& bytes@.subrange(4, 21) == prefixes()
            &&& bytes@.subrange(25, 29) == le_bytes(n as nat, 4)
            &&& valid_utf8(bytes@.subrange(29, bytes@.len() as int))
        } by {
            lemma_saved(s);
        }
        if bytes.len() < 29 {
            return None;
        }
        let middle: [u8; 17] = [2, 0, 0, 0, 0x52, 0x76, 2, 0, 0, 0, 0x52, 0x6d, 1, 0, 0, 0, 0x50];
        assert(middle@ =~= prefixes());
        if !same_bytes(&bytes[4..21], &middle) {
            return None;
        }
        let owner_len: u32 = read_le32(bytes, 25);
        if bytes.len() - 29 != owner_len as usize {
            proof {
                if bytes@.len() - 29 <= u32::MAX && le_bytes((bytes@.len() - 29) as nat, 4)
                    == le_bytes(owner_len as nat, 4) {
                    le_bytes_are_unique((bytes@.len() - 29) as nat, owner_len as nat);
                }
            }
            return None;
        }
        let owner = match utf8_text(&bytes[29..bytes.len()]) {
            Some(owner) => owner,
            None => {
                return None;
            },
        };
        let ref_count: u32 = read_le32(bytes, 0);
        proof {
            let (head, next) = (bytes@.subrange(0, 4), bytes@.subrange(4, 21));
            assert(next == prefixes());
            assert forall|i: int| 0 <= i < 17 implies bytes@[4 + i] == #[trigger] prefixes()[i] by {
                assert(next[i] == bytes@[4 + i]);
            }
            assert forall|i: int| 0 <= i < 4 implies bytes@[i] == #[trigger] head[i] by {}
            lemma_le_len(ref_count as nat, 4);
            assert(bytes@.subrange(0, 16) =~= saved_refs(ref_count as nat));
        }
        let refs = refs_load(&bytes[0..16]);
        let r = GitStorage { refs, packs: packs_new(), pack_count: read_le32(bytes, 21), owner };
        proof {
            let n = r@.listed.len();
            lemma_le_len(n, 4);
            assert(saved_refs(n).subrange(0, 4) =~= le_bytes(n, 4));
            assert(bytes@.subrange(0, 16).subrange(0, 4) =~= bytes@.subrange(0, 4));
            lemma_state_parts(n, r.pack_count, r.owner@);
            let s = r.state();
            assert(s =~= s.subrange(0, 4) + s.subrange(4, 21) + s.subrange(21, 25) + s.subrange(
                25,
                29,
            ) + s.subrange(29, s.len() as int));
            assert(bytes@ =~= bytes@.subrange(0, 4) + bytes@.subrange(4, 21) + bytes@.subrange(
                21,
                25,
            ) + bytes@.subrange(25, 29) + bytes@.subrange(29, bytes@.len() as int));
        }
        Some(r)
    }
}

/// What is saved of a repository reads back: the number of its refs, that of its packs, and the
/// name of its owner with its length in front, between the prefixes of its storage.
pub proof fn state_reads_back(ref_count: u32, pack_count: u32, owner: Seq<char>)
    requires
        encode_utf8(owner).len() <= u32::MAX,
    ensures
        ({
            let s = state_bytes(ref_count as nat, pack_count, owner);
            &&& s.len() == 29 + encode_utf8(owner).len()
            &&& le_value(s.subrange(0, 4)) == ref_count
            &&& s.subrange(4, 21) == seq![
                2u8,
                0,
                0,
                0,
                0x52,
                0x76,
                2,
                0,
                0,
                0,
                0x52,
                0x6d,
                1,
                0,
                0,
                0,
                0x50,
            ]
            &&& le_value(s.subrange(21, 25)) == pack_count
            &&& le_value(s.subrange(25, 29)) == encode_utf8(owner).len()
            &&& s.subrange(29, s.len() as int) == encode_utf8(owner)
        }),
{
    lemma_state_parts(ref_count as nat, pack_count, owner);
    lemma_widths(ref_count as nat, 0, 0);
    lemma_widths(pack_count as nat, 0, 0);
    lemma_widths(encode_utf8(owner).len(), 0, 0);
    le_bytes_read_back(ref_count as nat, 4);
    le_bytes_read_back(pack_count as nat, 4);
    le_bytes_read_back(encode_utf8(owner).len(), 4);
}

/// What is saved of a repository tells who owns it and how many refs and packs it has.
pub proof fn state_is_faithful(a: GitStorage, b: GitStorage)
    requires
        a.loadable(),
        b.loadable(),
        a.state() == b.state(),
    ensures
        a@.owner == b@.owner,
        a@.listed.len() == b@.listed.len(),
        a@.packs.len() == b@.packs.len(),
{
    broadcast use vstd::utf8::encode_utf8_decode_utf8;

    lemma_state_parts(a@.listed.len(), a.pack_count, a.owner@);
    lemma_state_parts(b@.listed.len(), b.pack_count, b.owner@);
    le_bytes_are_unique(a@.listed.len(), b@.listed.len());
    le_bytes_are_unique(a.pack_count as nat, b.pack_count as nat);
    assert(a.owner@ == decode_utf8(encode_utf8(a.owner@)));
    assert(b.owner@ == decode_utf8(encode_utf8(b.owner@)));
}

/// The bytes of some packs.
pub open spec fn pack_views(packs: Seq<Vec<u8>>) -> Seq<Seq<u8>> {
    packs.map_values(|pack: Vec<u8>| pack@)
}

} // verus!
