//! Ref updates by compare-and-swap.

use crate::text::same_text;
use vstd::prelude::*;
use vstd::string::*;

verus! {

/// A change of one ref, made only if the ref is what the client believes it to be.
#[derive(Debug)]
pub struct RefUpdate {
    /// The ref, such as `refs/heads/main`.
    pub name: String,
    /// The name of the object that it is expected to point to; `None` for a ref that is to be
    /// created.
    pub old_sha: Option<String>,
    /// The name of the object that it is to point to.
    pub new_sha: String,
}

/// The model of a ref update.
#[verifier::ext_equal]
pub struct UpdateView {
    /// The ref.
    pub name: Seq<char>,
    /// What it is expected to point to.
    pub old: Option<Seq<char>>,
    /// What it is to point to.
    pub new: Seq<char>,
}

/// The text that an optional string holds.
pub open spec fn text_of(s: Option<String>) -> Option<Seq<char>> {
    match s {
        Some(t) => Some(t@),
        None => None,
    }
}

impl View for RefUpdate {
    type V = UpdateView;

    open spec fn view(&self) -> UpdateView {
        UpdateView { name: self.name@, old: text_of(self.old_sha), new: self.new_sha@ }
    }
}

impl Clone for RefUpdate {
    fn clone(&self) -> (r: Self)
        ensures
            r@ == self@,
    {
        let old_sha = match &self.old_sha {
            Some(s) => Some(s.clone()),
            None => None,
        };
        RefUpdate { name: self.name.clone(), old_sha, new_sha: self.new_sha.clone() }
    }
}

/// The models of some updates.
pub open spec fn update_views(updates: Seq<RefUpdate>) -> Seq<UpdateView> {
    updates.map_values(|u: RefUpdate| u@)
}

/// What a ref points to.
pub open spec fn ref_at(refs: Map<Seq<char>, Seq<char>>, name: Seq<char>) -> Option<Seq<char>> {
    if refs.contains_key(name) {
        Some(refs[name])
    } else {
        None
    }
}

/// A text in quotes with its special characters escaped, as the `Debug` of std's `str` writes it.
pub uninterp spec fn quoted(s: Seq<char>) -> Seq<char>;

/// `{:?}` of a text in std's `format!`.
#[verifier::external_body]
fn quote(s: &str) -> (r: String)
    ensures
        r@ == quoted(s@),
{
    format!("{:?}", s)
}

/// An optional text as a message shows it.
pub open spec fn shown(s: Option<Seq<char>>) -> Seq<char> {
    match s {
        Some(t) => "Some("@ + quoted(t) + ")"@,
        None => "None"@,
    }
}

/// The message for a ref that is not what it is expected to be.
pub open spec fn mismatch_message(u: UpdateView, current: Option<Seq<char>>) -> Seq<char> {
    "Ref update CAS failure for '"@ + u.name + "': expected "@ + shown(u.old) + ", got "@ + shown(
        current,
    )
}

/// What the updates make of the refs, one after the other, or why the first of them that is
/// refused is.
pub open spec fn apply_updates(
    refs: Map<Seq<char>, Seq<char>>,
    updates: Seq<UpdateView>,
) -> Result<Map<Seq<char>, Seq<char>>, Seq<char>>
    decreases updates.len(),
{
    if updates.len() == 0 {
        Ok(refs)
    } else {
        let u = updates[0];
        if u.old == ref_at(refs, u.name) {
            apply_updates(refs.insert(u.name, u.new), updates.drop_first())
        } else {
            Err(mismatch_message(u, ref_at(refs, u.name)))
        }
    }
}

/// The refs with these updates made without a look at what they are expected to be.
pub open spec fn set_refs(
    refs: Map<Seq<char>, Seq<char>>,
    updates: Seq<UpdateView>,
) -> Map<Seq<char>, Seq<char>>
    decreases updates.len(),
{
    if updates.len() == 0 {
        refs
    } else {
        set_refs(refs, updates.drop_last()).insert(updates.last().name, updates.last().new)
    }
}

/// What the ref of the update at `i` points to when its turn comes, `current` being what the
/// refs of all updates point to before them: what the last of the first `j` updates made of it,
/// if one did.
pub open spec fn turn_value(
    current: Seq<Option<Seq<char>>>,
    updates: Seq<UpdateView>,
    i: int,
    j: int,
) -> Option<Seq<char>>
    decreases j,
{
    if j <= 0 {
        current[i]
    } else if updates[j - 1].name == updates[i].name {
        Some(updates[j - 1].new)
    } else {
        turn_value(current, updates, i, j - 1)
    }
}

/// Why an update from that at `i` on is refused, if one is.
pub open spec fn refusal(
    current: Seq<Option<Seq<char>>>,
    updates: Seq<UpdateView>,
    i: int,
) -> Option<Seq<char>>
    decreases updates.len() - i,
{
    if i >= updates.len() {
        None
    } else if updates[i].old == turn_value(current, updates, i, i) {
        refusal(current, updates, i + 1)
    } else {
        Some(mismatch_message(updates[i], turn_value(current, updates, i, i)))
    }
}

proof fn lemma_turn_value(
    refs: Map<Seq<char>, Seq<char>>,
    current: Seq<Option<Seq<char>>>,
    updates: Seq<UpdateView>,
    i: int,
    j: int,
)
    requires
        0 <= j <= i < updates.len(),
        current[i] == ref_at(refs, updates[i].name),
    ensures
        turn_value(current, updates, i, j) == ref_at(set_refs(refs, updates.take(j)), updates[i].name),
    decreases j,
{
    if j > 0 {
        assert(updates.take(j).drop_last() =~= updates.take(j - 1));
        assert(updates.take(j).last() == updates[j - 1]);
        lemma_turn_value(refs, current, updates, i, j - 1);
    }
}

/// The updates that are looked at against what their refs point to are those that go through
/// one after the other.
pub proof fn refusal_is_exact(
    refs: Map<Seq<char>, Seq<char>>,
    current: Seq<Option<Seq<char>>>,
    updates: Seq<UpdateView>,
)
    requires
        current.len() == updates.len(),
        forall|i: int| 0 <= i < updates.len() ==> #[trigger] current[i] == ref_at(refs, updates[i].name),
    ensures
        apply_updates(refs, updates) == (match refusal(current, updates, 0) {
            Some(m) => Err(m),
            None => Ok(set_refs(refs, updates)),
        }),
{
    assert(updates.skip(0) =~= updates);
    assert(updates.take(0) =~= Seq::empty());
    lemma_refusal(refs, current, updates, 0);
}

proof fn lemma_refusal(
    refs: Map<Seq<char>, Seq<char>>,
    current: Seq<Option<Seq<char>>>,
    updates: Seq<UpdateView>,
    i: int,
)
    requires
        0 <= i <= updates.len(),
        current.len() == updates.len(),
        forall|k: int| 0 <= k < updates.len() ==> #[trigger] current[k] == ref_at(refs, updates[k].name),
    ensures
        apply_updates(set_refs(refs, updates.take(i)), updates.skip(i)) == (match refusal(
            current,
            updates,
            i,
        ) {
            Some(m) => Err(m),
            None => Ok(set_refs(refs, updates)),
        }),
    decreases updates.len() - i,
{
    if i == updates.len() {
        assert(updates.take(i) =~= updates);
    } else {
        lemma_turn_value(refs, current, updates, i, i);
        lemma_refusal(refs, current, updates, i + 1);
        assert(updates.skip(i)[0] == updates[i]);
        assert(updates.skip(i).drop_first() =~= updates.skip(i + 1));
        assert(updates.take(i + 1).drop_last() =~= updates.take(i));
        assert(updates.take(i + 1).last() == updates[i]);
    }
}

/// What updates leave behind: a ref that none of them names is as before, and one that some
/// name is what the last of these makes of it.
pub proof fn updates_take_effect(
    refs: Map<Seq<char>, Seq<char>>,
    updates: Seq<UpdateView>,
    name: Seq<char>,
    i: int,
)
    requires
        0 <= i <= updates.len(),
        forall|k: int| i <= k < updates.len() ==> (#[trigger] updates[k]).name != name,
        i > 0 ==> updates[i - 1].name == name,
    ensures
        ref_at(set_refs(refs, updates), name) == (if i == 0 {
            ref_at(refs, name)
        } else {
            Some(updates[i - 1].new)
        }),
    decreases updates.len(),
{
    if updates.len() > 0 {
        let n = updates.len();
        assert(updates.last() == updates[n - 1]);
        if i < n {
            updates_take_effect(refs, updates.drop_last(), name, i);
        }
    }
}

proof fn lemma_each_in_turn(refs: Map<Seq<char>, Seq<char>>, updates: Seq<UpdateView>, i: int)
    requires
        0 <= i <= updates.len(),
        forall|k: int|
            0 <= k < i ==> (#[trigger] updates[k]).old == ref_at(
                set_refs(refs, updates.take(k)),
                updates[k].name,
            ),
    ensures
        apply_updates(refs, updates) == apply_updates(
            set_refs(refs, updates.take(i)),
            updates.skip(i),
        ),
    decreases i,
{
    if i == 0 {
        assert(updates.take(0) =~= Seq::empty());
        assert(updates.skip(0) =~= updates);
    } else {
        let k = i - 1;
        lemma_each_in_turn(refs, updates, k);
        assert(updates[k].old == ref_at(set_refs(refs, updates.take(k)), updates[k].name));
        assert(updates.skip(k)[0] == updates[k]);
        assert(updates.skip(k).drop_first() =~= updates.skip(i));
        assert(updates.take(i).drop_last() =~= updates.take(k));
        assert(updates.take(i).last() == updates[k]);
    }
}

/// An update that expects something else than what its ref points to when its turn comes, those
/// before it all having found what they expected, is what the whole push is refused for.
pub proof fn first_mismatch_is_refused(
    refs: Map<Seq<char>, Seq<char>>,
    updates: Seq<UpdateView>,
    i: int,
)
    requires
        0 <= i < updates.len(),
        forall|k: int|
            0 <= k < i ==> (#[trigger] updates[k]).old == ref_at(
                set_refs(refs, updates.take(k)),
                updates[k].name,
            ),
        updates[i].old != ref_at(set_refs(refs, updates.take(i)), updates[i].name),
    ensures
        apply_updates(refs, updates) == Err::<Map<Seq<char>, Seq<char>>, Seq<char>>(
            mismatch_message(
                updates[i],
                ref_at(set_refs(refs, updates.take(i)), updates[i].name),
            ),
        ),
{
    lemma_each_in_turn(refs, updates, i);
    assert(updates.skip(i)[0] == updates[i]);
}

proof fn lemma_some_mismatch(refs: Map<Seq<char>, Seq<char>>, updates: Seq<UpdateView>, i: int)
    requires
        0 <= i <= updates.len(),
        apply_updates(refs, updates) is Ok,
    ensures
        forall|k: int|
            0 <= k < i ==> (#[trigger] updates[k]).old == ref_at(
                set_refs(refs, updates.take(k)),
                updates[k].name,
            ),
    decreases i,
{
    if i > 0 {
        lemma_some_mismatch(refs, updates, i - 1);
        if updates[i - 1].old != ref_at(set_refs(refs, updates.take(i - 1)), updates[i - 1].name) {
            first_mismatch_is_refused(refs, updates, i - 1);
        }
    }
}

/// Updates go through just when each of them expects what its ref points to once those before it
/// are made, and then they are all made.
pub proof fn updates_go_through_exactly(
    refs: Map<Seq<char>, Seq<char>>,
    updates: Seq<UpdateView>,
)
    ensures
        apply_updates(refs, updates) is Ok <==> forall|i: int|
            0 <= i < updates.len() ==> (#[trigger] updates[i]).old == ref_at(
                set_refs(refs, updates.take(i)),
                updates[i].name,
            ),
        apply_updates(refs, updates) matches Ok(now) ==> now == set_refs(refs, updates),
{
    let n = updates.len() as int;
    if apply_updates(refs, updates) is Ok {
        lemma_some_mismatch(refs, updates, n);
    }
    if forall|i: int|
        0 <= i < updates.len() ==> (#[trigger] updates[i]).old == ref_at(
            set_refs(refs, updates.take(i)),
            updates[i].name,
        ) {
        lemma_each_in_turn(refs, updates, n);
        assert(updates.take(n) =~= updates);
        assert(updates.skip(n) =~= Seq::empty());
    }
}

/// An update of a ref is held against what the one before it in the same push made of that ref.
pub proof fn updates_chain(refs: Map<Seq<char>, Seq<char>>, first: UpdateView, second: UpdateView)
    requires
        first.name == second.name,
        first.old == ref_at(refs, first.name),
    ensures
        apply_updates(refs, seq![first, second]) is Ok <==> second.old == Some(first.new),
{
    let updates = seq![first, second];
    let then = refs.insert(first.name, first.new);
    assert(updates.drop_first() =~= seq![second]);
    assert(seq![second].drop_first() =~= Seq::empty());
    reveal_with_fuel(apply_updates, 3);
}

/// A refusal names the ref, what it was expected to point to and what it points to, the latter two
/// in quotes, or that there is nothing.
pub proof fn refusal_tells_ref_and_values(
    u: UpdateView,
    old: Seq<char>,
    current: Seq<char>,
)
    ensures
        u.old == Some(old) ==> mismatch_message(u, Some(current)) == "Ref update CAS failure for '"@
            + u.name + "': expected "@ + ("Some("@ + quoted(old) + ")"@) + ", got "@ + ("Some("@
            + quoted(current) + ")"@),
        u.old == Some(old) ==> mismatch_message(u, None) == "Ref update CAS failure for '"@ + u.name
            + "': expected "@ + ("Some("@ + quoted(old) + ")"@) + ", got "@ + "None"@,
        u.old is None ==> mismatch_message(u, Some(current)) == "Ref update CAS failure for '"@
            + u.name + "': expected "@ + "None"@ + ", got "@ + ("Some("@ + quoted(current) + ")"@),
{
}

fn show(s: &Option<String>) -> (r: String)
    ensures
        r@ == shown(text_of(*s)),
{
    match s {
        Some(t) => {
            let mut m = "Some(".to_owned();
            m.append(quote(t.as_str()).as_str());
            m.append(")");
            m
        },
        None => "None".to_owned(),
    }
}

fn mismatch_error(u: &RefUpdate, current: &Option<String>) -> (r: String)
    ensures
        r@ == mismatch_message(u@, text_of(*current)),
{
    let mut m = "Ref update CAS failure for '".to_owned();
    m.append(u.name.as_str());
    m.append("': expected ");
    m.append(show(&u.old_sha).as_str());
    m.append(", got ");
    m.append(show(current).as_str());
    m
}

fn same_option(a: &Option<String>, b: &Option<String>) -> (r: bool)
    ensures
        r == (text_of(*a) == text_of(*b)),
{
    match (a, b) {
        (Some(x), Some(y)) => same_text(x.as_str(), y.as_str()),
        (None, None) => true,
        _ => false,
    }
}

/// What refs point to.
pub open spec fn current_views(current: Seq<Option<String>>) -> Seq<Option<Seq<char>>> {
    current.map_values(|s: Option<String>| text_of(s))
}

/// What the ref of the update at `i` points to when its turn comes.
fn value_in_turn(
    current: &Vec<Option<String>>,
    updates: &Vec<RefUpdate>,
    i: usize,
) -> (r: Option<String>)
    requires
        i < updates.len(),
        current.len() == updates.len(),
    ensures
        text_of(r) == turn_value(current_views(current@), update_views(updates@), i as int, i as int),
{
    let mut j: usize = i;
    while j > 0
        invariant
            j <= i < updates.len(),
            current.len() == updates.len(),
            turn_value(current_views(current@), update_views(updates@), i as int, i as int)
                == turn_value(current_views(current@), update_views(updates@), i as int, j as int),
        decreases j,
    {
        if same_text(updates[j - 1].name.as_str(), updates[i].name.as_str()) {
            return Some(updates[j - 1].new_sha.clone());
        }
        j -= 1;
    }
    match &current[i] {
        Some(s) => Some(s.clone()),
        None => None,
    }
}

/// Checks updates against what their refs point to, which `current` holds for each.
pub fn check_updates(
    current: &Vec<Option<String>>,
    updates: &Vec<RefUpdate>,
) -> (r: Result<(), String>)
    requires
        current.len() == updates.len(),
    ensures
        match refusal(current_views(current@), update_views(updates@), 0) {
            None => r is Ok,
            Some(m) => r matches Err(e) && e@ == m,
        },
{
    let mut i: usize = 0;
    while i < updates.len()
        invariant
            i <= updates.len(),
            current.len() == updates.len(),
            refusal(current_views(current@), update_views(updates@), 0) == refusal(
                current_views(current@),
                update_views(updates@),
                i as int,
            ),
        decreases updates.len() - i,
    {
        let value = value_in_turn(current, updates, i);
        if !same_option(&updates[i].old_sha, &value) {
            return Err(mismatch_error(&updates[i], &value));
        }
        i += 1;
    }
    Ok(())
}

} // verus!
