//! The dialogue of the remote helper with git.

use crate::json::{get_text, json_read, read_json, text_at};
use crate::refs::{text_of, RefUpdate, UpdateView};
use crate::server::first_ref;
use crate::storage::pair_views;
use crate::text::{same_text, text_views};
use crate::words::{
    before, behind, chars_of, find, has_prefix, is_space, is_text, lossy, lossy_text, position,
    position_behind, starts_with, strip_prefix, text_from, text_is_split, trim, trimmed,
    trimmed_is_trimmed, up_to, white_space_is_trimmed, without_prefix, word, word_at,
    words_are_separated,
};
use vstd::prelude::*;
use vstd::string::*;

verus! {

/// The contract that a URL names: what comes behind `near://` or `near::`, or the whole of it.
pub open spec fn contract_of(url: Seq<char>) -> Seq<char> {
    if starts_with(url, "near://"@) {
        without_prefix(url, "near://"@)
    } else {
        without_prefix(url, "near::"@)
    }
}

/// A URL names the contract behind `near://` or `near::`, and what has neither in front is its name.
pub proof fn url_names_contract(id: Seq<char>)
    ensures
        contract_of("near://"@ + id) == id,
        contract_of("near::"@ + id) == id,
        !starts_with(id, "near:"@) ==> contract_of(id) == id,
{
    reveal_strlit("near://");
    reveal_strlit("near::");
    reveal_strlit("near:");
    let (a, b) = ("near://"@ + id, "near::"@ + id);
    assert(a.take(7) =~= "near://"@);
    assert(a.skip(7) =~= id);
    assert(b.take(6) =~= "near::"@);
    assert(b.skip(6) =~= id);
    if starts_with(b, "near://"@) {
        assert(b.take(7)[5] == b.take(6)[5]);
        assert(b.take(7)[5] == '/');
    }
    if starts_with(id, "near://"@) {
        assert(id.take(5) =~= id.take(7).take(5));
        assert("near://"@.take(5) =~= "near:"@);
    }
    if starts_with(id, "near::"@) {
        assert(id.take(5) =~= id.take(6).take(5));
        assert("near::"@.take(5) =~= "near:"@);
    }
}

/// The contract that a URL names.
pub fn contract_id(url: &str) -> (r: String)
    ensures
        r@ == contract_of(url@),
{
    let chars = chars_of(url);
    if has_prefix(&chars, "near://") {
        text_from(strip_prefix(&chars, "near://"))
    } else {
        text_from(strip_prefix(&chars, "near::"))
    }
}

/// Where the helper is in its dialogue with git.
#[verifier::ext_equal]
pub enum StateView {
    /// It waits for a command.
    Idle,
    /// It reads further lines of a fetch, having read that these objects are wanted.
    Fetching(Seq<Seq<char>>),
    /// It reads further lines of a push, having read these.
    Pushing(Seq<Seq<char>>),
}

/// What the helper does next.
#[verifier::ext_equal]
pub enum StepView {
    /// Nothing.
    Wait,
    /// It writes this.
    Reply(Seq<char>),
    /// It lists the refs of the contract.
    List,
    /// It fetches the packs of the contract, these objects being wanted.
    Fetch(Seq<Seq<char>>),
    /// It gets hold of the key that it signs with.
    Unlock,
    /// It pushes what these lines say.
    Push(Seq<Seq<char>>),
    /// It does not know this command.
    Unknown(Seq<char>),
}

/// The objects that a line of a fetch wants besides `wants`.
pub open spec fn more_wants(wants: Seq<Seq<char>>, line: Seq<char>) -> Seq<Seq<char>> {
    if starts_with(line, "fetch "@) && word_at(line, 1).len() > 0 {
        wants.push(word_at(line, 1))
    } else {
        wants
    }
}

/// What becomes of the state with a line, and what is done.
pub open spec fn step_of(state: StateView, line: Seq<char>) -> (StateView, StepView) {
    let line = trimmed(line);
    match state {
        StateView::Idle => if line.len() == 0 {
            (StateView::Idle, StepView::Wait)
        } else if line == "capabilities"@ {
            (StateView::Idle, StepView::Reply("fetch\npush\n\n"@))
        } else if line == "list"@ || line == "list for-push"@ {
            (StateView::Idle, StepView::List)
        } else if starts_with(line, "fetch "@) {
            (StateView::Fetching(more_wants(Seq::empty(), line)), StepView::Wait)
        } else if starts_with(line, "push "@) {
            (StateView::Pushing(seq![line]), StepView::Unlock)
        } else if starts_with(line, "option "@) {
            (StateView::Idle, StepView::Reply("unsupported\n"@))
        } else {
            (StateView::Idle, StepView::Unknown(line))
        },
        StateView::Fetching(wants) => if line.len() == 0 {
            (StateView::Idle, StepView::Fetch(wants))
        } else {
            (StateView::Fetching(more_wants(wants, line)), StepView::Wait)
        },
        StateView::Pushing(lines) => if line.len() == 0 {
            (StateView::Idle, StepView::Push(lines))
        } else {
            (StateView::Pushing(lines.push(line)), StepView::Wait)
        },
    }
}

/// What is done when there are no more lines.
pub open spec fn last_step(state: StateView) -> StepView {
    match state {
        StateView::Idle => StepView::Wait,
        StateView::Fetching(wants) => StepView::Fetch(wants),
        StateView::Pushing(lines) => StepView::Push(lines),
    }
}

/// A blank line ends what is being read, just as the end of the input does, and the helper waits
/// for the next command.
pub proof fn blank_line_ends(state: StateView, line: Seq<char>)
    requires
        trimmed(line).len() == 0,
    ensures
        step_of(state, line) == (StateView::Idle, last_step(state)),
{
}

/// The state after some lines.
pub open spec fn state_after(state: StateView, lines: Seq<Seq<char>>) -> StateView
    decreases lines.len(),
{
    if lines.len() == 0 {
        state
    } else {
        step_of(state_after(state, lines.drop_last()), lines.last()).0
    }
}

/// The lines of a push are collected, all of them and in their order, until a blank line or the
/// end of the input says that they are to be pushed; with the first of them the key is unlocked,
/// and nothing is done at the others.
pub proof fn push_lines_are_collected(lines: Seq<Seq<char>>, blank: Seq<char>)
    requires
        lines.len() > 0,
        forall|i: int|
            0 <= i < lines.len() ==> trimmed(#[trigger] lines[i]) == lines[i] && lines[i].len() > 0,
        starts_with(lines[0], "push "@),
        trimmed(blank).len() == 0,
    ensures
        state_after(StateView::Idle, lines) == StateView::Pushing(lines),
        step_of(StateView::Idle, lines[0]).1 is Unlock,
        lines.len() > 1 ==> step_of(
            state_after(StateView::Idle, lines.drop_last()),
            lines.last(),
        ).1 is Wait,
        step_of(state_after(StateView::Idle, lines), blank) == (
            StateView::Idle,
            StepView::Push(lines),
        ),
        last_step(state_after(StateView::Idle, lines)) == StepView::Push(lines),
    decreases lines.len(),
{
    let before = lines.drop_last();
    reveal_strlit("push ");
    reveal_strlit("capabilities");
    reveal_strlit("list");
    reveal_strlit("list for-push");
    reveal_strlit("fetch ");
    assert(trimmed(lines[0]) == lines[0]);
    assert("push "@[0] == 'p');
    assert(lines[0].take(5)[0] == 'p');
    assert(!starts_with(lines[0], "fetch "@)) by {
        if starts_with(lines[0], "fetch "@) {
            assert(lines[0].take(6)[0] == 'f');
        }
    }
    if lines.len() == 1 {
        assert(before =~= Seq::empty());
        assert(lines =~= seq![lines[0]]);
        assert(state_after(StateView::Idle, before) == StateView::Idle);
    } else {
        assert forall|i: int| 0 <= i < before.len() implies trimmed(#[trigger] before[i])
            == before[i] && before[i].len() > 0 by {
            assert(before[i] == lines[i]);
        }
        push_lines_are_collected(before, blank);
        let n = lines.len() - 1;
        assert(trimmed(lines[n]) == lines[n] && lines[n].len() > 0);
        assert(before.push(lines[n]) =~= lines);
    }
}

/// The line with which git asks to fetch an object for a ref.
pub open spec fn fetch_line(sha: Seq<char>, name: Seq<char>) -> Seq<char> {
    "fetch "@ + sha + seq![' '] + name
}

proof fn lemma_fetch_line(sha: Seq<char>, name: Seq<char>)
    requires
        sha.len() > 0,
        forall|i: int| 0 <= i < sha.len() ==> !is_space(#[trigger] sha[i]),
        name.len() > 0 && !is_space(name.last()),
    ensures
        trimmed(fetch_line(sha, name)) == fetch_line(sha, name),
        starts_with(fetch_line(sha, name), "fetch "@),
        word_at(fetch_line(sha, name), 1) == sha,
        fetch_line(sha, name) != "capabilities"@,
        fetch_line(sha, name) != "list"@,
        fetch_line(sha, name) != "list for-push"@,
{
    let line = fetch_line(sha, name);
    let none = Seq::<char>::empty();
    reveal_strlit("fetch ");
    reveal_strlit("capabilities");
    reveal_strlit("list");
    reveal_strlit("list for-push");
    assert(line.take(6) =~= "fetch "@);
    assert(line[0] == 'f' && "capabilities"@[0] == 'c' && "list"@[0] == 'l' && "list for-push"@[0]
        == 'l');
    assert(none + line + none =~= line);
    assert(line.last() == name.last());
    white_space_is_trimmed(none, line, none);
    let word = "fetch "@.take(5);
    let rest = seq![' '] + sha + (seq![' '] + name);
    assert(line =~= none + word + rest);
    assert forall|i: int| 0 <= i < word.len() implies !is_space(#[trigger] word[i]) by {
        assert(word =~= seq!['f', 'e', 't', 'c', 'h']);
    }
    words_are_separated(none, word, rest, 0);
    words_are_separated(seq![' '], sha, seq![' '] + name, 0);
}

/// The lines of a fetch are collected: the objects that they name are wanted, all of them and in
/// their order, until a blank line or the end of the input says that they are to be fetched.
pub proof fn fetch_lines_are_collected(
    shas: Seq<Seq<char>>,
    names: Seq<Seq<char>>,
    blank: Seq<char>,
)
    requires
        shas.len() == names.len(),
        shas.len() > 0,
        forall|i: int|
            0 <= i < shas.len() ==> (#[trigger] shas[i]).len() > 0 && (forall|k: int|
                0 <= k < shas[i].len() ==> !is_space(#[trigger] shas[i][k])) && names[i].len() > 0
                && !is_space(names[i].last()),
        trimmed(blank).len() == 0,
    ensures
        ({
            let lines = Seq::new(shas.len(), |i: int| fetch_line(shas[i], names[i]));
            &&& state_after(StateView::Idle, lines) == StateView::Fetching(shas)
            &&& step_of(state_after(StateView::Idle, lines), blank) == (
                StateView::Idle,
                StepView::Fetch(shas),
            )
            &&& last_step(state_after(StateView::Idle, lines)) == StepView::Fetch(shas)
        }),
    decreases shas.len(),
{
    let lines = Seq::new(shas.len(), |i: int| fetch_line(shas[i], names[i]));
    let n = shas.len() - 1;
    assert(shas[n].len() > 0);
    lemma_fetch_line(shas[n], names[n]);
    let (s, m) = (shas.drop_last(), names.drop_last());
    let before = lines.drop_last();
    assert(before =~= Seq::new(s.len(), |i: int| fetch_line(s[i], m[i])));
    assert(lines.last() == fetch_line(shas[n], names[n]));
    if n == 0 {
        assert(before =~= Seq::empty());
        assert(state_after(StateView::Idle, before) == StateView::Idle);
        assert(Seq::empty().push(shas[0]) =~= shas);
    } else {
        assert forall|i: int| 0 <= i < s.len() implies (#[trigger] s[i]).len() > 0 && (forall|
            k: int,
        |
            0 <= k < s[i].len() ==> !is_space(#[trigger] s[i][k])) && m[i].len() > 0 && !is_space(
            m[i].last(),
        ) by {
            assert(shas[i].len() > 0);
            assert(s[i] == shas[i] && m[i] == names[i]);
        }
        fetch_lines_are_collected(s, m, blank);
        assert(s.push(shas[n]) =~= shas);
    }
}

/// What git asks before it fetches or pushes is answered: what the helper can do, the refs, and
/// that it knows no options.
pub proof fn commands_are_answered(option: Seq<char>)
    requires
        trimmed("option "@ + option) == "option "@ + option,
    ensures
        step_of(StateView::Idle, "capabilities"@) == (
            StateView::Idle,
            StepView::Reply("fetch\npush\n\n"@),
        ),
        step_of(StateView::Idle, "list"@) == (StateView::Idle, StepView::List),
        step_of(StateView::Idle, "list for-push"@) == (StateView::Idle, StepView::List),
        step_of(StateView::Idle, "option "@ + option) == (
            StateView::Idle,
            StepView::Reply("unsupported\n"@),
        ),
{
    reveal_strlit("push ");
    reveal_strlit("capabilities");
    reveal_strlit("list");
    reveal_strlit("list for-push");
    reveal_strlit("fetch ");
    reveal_strlit("option ");
    let none = Seq::<char>::empty();
    let (c, l, f, o) = ("capabilities"@, "list"@, "list for-push"@, "option "@ + option);
    assert(none + c + none =~= c);
    assert(none + l + none =~= l);
    assert(none + f + none =~= f);
    white_space_is_trimmed(none, c, none);
    white_space_is_trimmed(none, l, none);
    white_space_is_trimmed(none, f, none);
    assert(o.take(7) =~= "option "@);
    assert(o[0] == 'o');
    assert(c[0] == 'c' && l[0] == 'l' && f[0] == 'l');
    assert(l.len() != c.len() && f.len() != c.len());
    if starts_with(o, "fetch "@) {
        assert(o.take(6)[0] == 'f');
    }
    if starts_with(o, "push "@) {
        assert(o.take(5)[0] == 'p');
    }
}

/// Where the helper is in its dialogue with git.
pub enum HelperState {
    /// It waits for a command.
    Idle,
    /// It reads further lines of a fetch.
    Fetching(Vec<String>),
    /// It reads further lines of a push.
    Pushing(Vec<String>),
}

/// What the helper does next.
pub enum HelperStep {
    /// Nothing.
    Wait,
    /// It writes this.
    Reply(String),
    /// It lists the refs of the contract.
    List,
    /// It fetches the packs of the contract.
    Fetch(Vec<String>),
    /// It gets hold of the key that it signs with.
    Unlock,
    /// It pushes what these lines say.
    Push(Vec<String>),
    /// It does not know this command.
    Unknown(String),
}

impl View for HelperState {
    type V = StateView;

    open spec fn view(&self) -> StateView {
        match *self {
            HelperState::Idle => StateView::Idle,
            HelperState::Fetching(wants) => StateView::Fetching(text_views(wants@)),
            HelperState::Pushing(lines) => StateView::Pushing(text_views(lines@)),
        }
    }
}

impl View for HelperStep {
    type V = StepView;

    open spec fn view(&self) -> StepView {
        match *self {
            HelperStep::Wait => StepView::Wait,
            HelperStep::Reply(s) => StepView::Reply(s@),
            HelperStep::List => StepView::List,
            HelperStep::Fetch(wants) => StepView::Fetch(text_views(wants@)),
            HelperStep::Unlock => StepView::Unlock,
            HelperStep::Push(lines) => StepView::Push(text_views(lines@)),
            HelperStep::Unknown(line) => StepView::Unknown(line@),
        }
    }
}

fn add_want(wants: &mut Vec<String>, line: &[char])
    ensures
        text_views(final(wants)@) == more_wants(text_views(old(wants)@), line@),
{
    if has_prefix(line, "fetch ") {
        let sha = word(line, 1);
        if sha.len() > 0 {
            wants.push(text_from(sha));
            assert(text_views(wants@) =~= text_views(old(wants)@).push(sha@));
        }
    }
}

/// Reads a command.
fn start_command(line: &[char]) -> (r: (HelperState, HelperStep))
    requires
        trimmed(line@) == line@,
    ensures
        (r.0@, r.1@) == step_of(StateView::Idle, line@),
{
    if line.len() == 0 {
        (HelperState::Idle, HelperStep::Wait)
    } else if is_text(line, "capabilities") {
        (HelperState::Idle, HelperStep::Reply("fetch\npush\n\n".to_owned()))
    } else if is_text(line, "list") || is_text(line, "list for-push") {
        (HelperState::Idle, HelperStep::List)
    } else if has_prefix(line, "fetch ") {
        let mut wants: Vec<String> = Vec::new();
        assert(text_views(wants@) =~= Seq::empty());
        add_want(&mut wants, line);
        (HelperState::Fetching(wants), HelperStep::Wait)
    } else if has_prefix(line, "push ") {
        let lines: Vec<String> = vec![text_from(line)];
        assert(text_views(lines@) =~= seq![line@]);
        (HelperState::Pushing(lines), HelperStep::Unlock)
    } else if has_prefix(line, "option ") {
        (HelperState::Idle, HelperStep::Reply("unsupported\n".to_owned()))
    } else {
        (HelperState::Idle, HelperStep::Unknown(text_from(line)))
    }
}

/// Takes a line.
pub fn step(state: HelperState, line: &str) -> (r: (HelperState, HelperStep))
    ensures
        (r.0@, r.1@) == step_of(state@, line@),
{
    let chars = chars_of(line);
    let text = trim(&chars);
    proof {
        trimmed_is_trimmed(line@);
    }
    match state {
        HelperState::Idle => start_command(text),
        HelperState::Fetching(wants) => {
            if text.len() == 0 {
                return (HelperState::Idle, HelperStep::Fetch(wants));
            }
            let mut wants = wants;
            add_want(&mut wants, text);
            (HelperState::Fetching(wants), HelperStep::Wait)
        },
        HelperState::Pushing(lines) => {
            if text.len() == 0 {
                return (HelperState::Idle, HelperStep::Push(lines));
            }
            let mut lines = lines;
            let ghost sofar = text_views(lines@);
            lines.push(text_from(text));
            assert(text_views(lines@) =~= sofar.push(text@));
            (HelperState::Pushing(lines), HelperStep::Wait)
        },
    }
}

/// Takes the end of the input.
pub fn finish(state: HelperState) -> (r: HelperStep)
    ensures
        r@ == last_step(state@),
{
    match state {
        HelperState::Idle => HelperStep::Wait,
        HelperState::Fetching(wants) => HelperStep::Fetch(wants),
        HelperState::Pushing(lines) => HelperStep::Push(lines),
    }
}

/// The lines that list refs.
pub open spec fn listed(refs: Seq<(Seq<char>, Seq<char>)>) -> Seq<char>
    decreases refs.len(),
{
    if refs.len() == 0 {
        Seq::empty()
    } else {
        listed(refs.drop_last()) + refs.last().1 + " "@ + refs.last().0 + "\n"@
    }
}

/// The answer to a request for the refs of the contract: the refs, the one that HEAD stands for,
/// and a blank line.
pub open spec fn list_text(refs: Seq<(Seq<char>, Seq<char>)>) -> Seq<char> {
    listed(refs) + (if first_ref(refs, "refs/heads/main"@) < refs.len() {
        "@refs/heads/main HEAD\n"@
    } else if first_ref(refs, "refs/heads/master"@) < refs.len() {
        "@refs/heads/master HEAD\n"@
    } else {
        Seq::empty()
    }) + "\n"@
}

/// The refs of the contract are listed one a line, in their order: what a ref points to, a space
/// and its name. Behind them comes the ref that HEAD stands for, `main` or else `master`, if there
/// is one of them, and then a blank line.
pub proof fn each_ref_is_listed(
    refs: Seq<(Seq<char>, Seq<char>)>,
    last: (Seq<char>, Seq<char>),
    i: int,
)
    requires
        0 <= i < refs.len(),
    ensures
        listed(Seq::empty()) == Seq::<char>::empty(),
        listed(refs.push(last)) == listed(refs) + last.1 + " "@ + last.0 + "\n"@,
        refs[i].0 == "refs/heads/main"@ ==> list_text(refs) == listed(refs)
            + "@refs/heads/main HEAD\n"@ + "\n"@,
        refs[i].0 == "refs/heads/master"@ && (forall|k: int|
            0 <= k < refs.len() ==> (#[trigger] refs[k]).0 != "refs/heads/main"@) ==> list_text(refs)
            == listed(refs) + "@refs/heads/master HEAD\n"@ + "\n"@,
        (forall|k: int|
            0 <= k < refs.len() ==> (#[trigger] refs[k]).0 != "refs/heads/main"@ && refs[k].0
                != "refs/heads/master"@) ==> list_text(refs) == listed(refs) + "\n"@,
{
    let (main, master) = ("refs/heads/main"@, "refs/heads/master"@);
    assert(refs.push(last).drop_last() =~= refs);
    crate::server::lemma_first_ref(refs, main);
    crate::server::lemma_first_ref(refs, master);
    assert(refs[i] == refs[i]);
    assert(listed(refs) + Seq::<char>::empty() =~= listed(refs));
}

/// The answer to a request for the refs of the contract, which gives them by their names.
pub fn list_reply(refs: &Vec<(String, String)>) -> (r: String)
    ensures
        r@ == list_text(pair_views(refs@)),
{
    let ghost all = pair_views(refs@);
    let mut s = String::new();
    let mut i: usize = 0;
    assert(all.take(0) =~= Seq::empty());
    while i < refs.len()
        invariant
            i <= refs.len(),
            all == pair_views(refs@),
            s@ == listed(all.take(i as int)),
        decreases refs.len() - i,
    {
        s.append(refs[i].1.as_str());
        s.append(" ");
        s.append(refs[i].0.as_str());
        s.append("\n");
        assert(all.take(i + 1).drop_last() =~= all.take(i as int));
        assert(all.take(i + 1).last() == (refs@[i as int].0@, refs@[i as int].1@));
        i += 1;
    }
    assert(all.take(i as int) =~= all);
    if crate::server::find_ref(refs, "refs/heads/main") < refs.len() {
        s.append("@refs/heads/main HEAD\n");
    } else if crate::server::find_ref(refs, "refs/heads/master") < refs.len() {
        s.append("@refs/heads/master HEAD\n");
    } else {
        assert(s@ + Seq::<char>::empty() =~= s@);
    }
    s.append("\n");
    s
}

/// A push of one ref.
#[derive(Debug)]
pub struct PushOp {
    /// Whether the ref may be moved to what does not descend from it.
    pub force: bool,
    /// What is pushed; empty to delete the ref.
    pub src_ref: String,
    /// The ref of the contract.
    pub dst_ref: String,
}

/// The model of a push of one ref.
#[verifier::ext_equal]
pub struct OpView {
    /// Whether it is forced.
    pub force: bool,
    /// What is pushed.
    pub src: Seq<char>,
    /// The ref of the contract.
    pub dst: Seq<char>,
}

impl View for PushOp {
    type V = OpView;

    open spec fn view(&self) -> OpView {
        OpView { force: self.force, src: self.src_ref@, dst: self.dst_ref@ }
    }
}

/// What a line of a push asks for: a source and a ref with a colon between them, behind a plus
/// sign when it is forced.
pub open spec fn op_of(line: Seq<char>) -> Option<OpView> {
    let spec = without_prefix(line, "push "@);
    let force = spec.len() > 0 && spec[0] == '+';
    let pair = if force {
        spec.drop_first()
    } else {
        spec
    };
    if position(pair, ':') < pair.len() {
        Some(OpView { force, src: before(pair, ':'), dst: behind(pair, ':') })
    } else {
        None
    }
}

/// What the lines of a push ask for. A line without a colon is passed over.
pub open spec fn ops_of(lines: Seq<Seq<char>>) -> Seq<OpView>
    decreases lines.len(),
{
    if lines.len() == 0 {
        Seq::empty()
    } else {
        match op_of(lines.last()) {
            Some(op) => ops_of(lines.drop_last()).push(op),
            None => ops_of(lines.drop_last()),
        }
    }
}

/// The line with which git asks for a push.
pub open spec fn push_line(op: OpView) -> Seq<char> {
    "push "@ + (if op.force {
        seq!['+']
    } else {
        Seq::empty()
    }) + op.src + seq![':'] + op.dst
}

proof fn lemma_push_line(op: OpView)
    requires
        !op.src.contains(':'),
        op.src.len() > 0 ==> op.src[0] != '+',
    ensures
        op_of(push_line(op)) == Some(op),
{
    let line = push_line(op);
    let pair = op.src + (seq![':'] + op.dst);
    reveal_strlit("push ");
    assert(line.take(5) =~= "push "@);
    assert(line.skip(5) =~= (if op.force {
        seq!['+']
    } else {
        Seq::empty()
    }) + pair);
    if op.force {
        assert(line.skip(5).drop_first() =~= pair);
    } else {
        assert(line.skip(5) =~= pair);
        assert(pair[0] != '+') by {
            if op.src.len() > 0 {
                assert(pair[0] == op.src[0]);
            }
        }
    }
    position_behind(op.src, ':', seq![':'] + op.dst);
    assert(before(pair, ':') =~= op.src);
    assert(behind(pair, ':') =~= op.dst);
}

/// The lines of a push are read as what they ask for, one operation each and in their order: the
/// source is what stands before the colon, the ref of the contract what stands behind it, and a
/// plus sign forces the push.
pub proof fn push_lines_read_back(ops: Seq<OpView>)
    requires
        forall|i: int|
            0 <= i < ops.len() ==> !(#[trigger] ops[i]).src.contains(':') && (ops[i].src.len() > 0
                ==> ops[i].src[0] != '+'),
    ensures
        ops_of(Seq::new(ops.len(), |i: int| push_line(ops[i]))) == ops,
    decreases ops.len(),
{
    let lines = Seq::new(ops.len(), |i: int| push_line(ops[i]));
    if ops.len() > 0 {
        let before = ops.drop_last();
        assert forall|i: int| 0 <= i < before.len() implies !(#[trigger] before[i]).src.contains(':')
            && (before[i].src.len() > 0 ==> before[i].src[0] != '+') by {
            assert(before[i] == ops[i]);
        }
        push_lines_read_back(before);
        assert(lines.drop_last() =~= Seq::new(before.len(), |i: int| push_line(before[i])));
        assert(ops.last() == ops[ops.len() - 1]);
        lemma_push_line(ops.last());
        assert(before.push(ops.last()) =~= ops);
    } else {
        assert(ops =~= Seq::empty());
    }
}

/// The models of pushes.
pub open spec fn op_views(ops: Seq<PushOp>) -> Seq<OpView> {
    ops.map_values(|op: PushOp| op@)
}

/// What a line of a push asks for.
pub fn parse_push_spec(line: &str) -> (r: Option<PushOp>)
    ensures
        match op_of(line@) {
            Some(op) => r matches Some(v) && v@ == op,
            None => r is None,
        },
{
    let chars = chars_of(line);
    let all = strip_prefix(&chars, "push ");
    let force = all.len() > 0 && all[0] == '+';
    let start: usize = if force { 1 } else { 0 };
    let pair = &all[start..all.len()];
    assert(pair@ =~= if force { all@.drop_first() } else { all@ });
    let i: usize = find(pair, ':');
    if i >= pair.len() {
        return None;
    }
    let dst = &pair[i + 1..pair.len()];
    assert(dst@ =~= behind(pair@, ':'));
    let op = PushOp { force, src_ref: text_from(up_to(pair, ':')), dst_ref: text_from(dst) };
    assert(op@ =~= op_of(line@)->0);
    Some(op)
}

/// What the lines of a push ask for.
pub fn parse_push_specs(lines: &Vec<String>) -> (r: Vec<PushOp>)
    ensures
        op_views(r@) == ops_of(text_views(lines@)),
{
    let ghost all = text_views(lines@);
    let mut ops: Vec<PushOp> = Vec::new();
    let mut i: usize = 0;
    assert(all.take(0) =~= Seq::empty());
    assert(op_views(ops@) =~= Seq::empty());
    while i < lines.len()
        invariant
            i <= lines.len(),
            all == text_views(lines@),
            op_views(ops@) == ops_of(all.take(i as int)),
        decreases lines.len() - i,
    {
        let ghost sofar = op_views(ops@);
        assert(all.take(i + 1).drop_last() =~= all.take(i as int));
        assert(all.take(i + 1).last() == lines@[i as int]@);
        if let Some(op) = parse_push_spec(lines[i].as_str()) {
            let ghost view = op@;
            ops.push(op);
            assert(op_views(ops@) =~= sofar.push(view));
        }
        i += 1;
    }
    assert(all.take(i as int) =~= all);
    ops
}

/// What the last of some refs with this name points to.
pub open spec fn last_ref(refs: Seq<(Seq<char>, Seq<char>)>, name: Seq<char>) -> Option<Seq<char>>
    decreases refs.len(),
{
    if refs.len() == 0 {
        None
    } else if refs.last().0 == name {
        Some(refs.last().1)
    } else {
        last_ref(refs.drop_last(), name)
    }
}

/// What a ref of the contract points to is found under its name, where no ref behind it has the
/// same; there is nothing where none has it.
pub proof fn remote_ref_is_found(refs: Seq<(Seq<char>, Seq<char>)>, name: Seq<char>, i: int)
    requires
        -1 <= i < refs.len(),
        i >= 0 ==> refs[i].0 == name,
        forall|k: int| i < k < refs.len() ==> (#[trigger] refs[k]).0 != name,
    ensures
        last_ref(refs, name) == (if i >= 0 {
            Some(refs[i].1)
        } else {
            None
        }),
    decreases refs.len(),
{
    if refs.len() > 0 && i < refs.len() - 1 {
        assert(refs[refs.len() - 1].0 != name);
        let front = refs.drop_last();
        assert forall|k: int| i < k < front.len() implies (#[trigger] front[k]).0 != name by {
            assert(refs[k].0 != name);
        }
        remote_ref_is_found(front, name, i);
    }
}

/// What a push of one ref comes to.
#[verifier::ext_equal]
pub enum PlanView {
    /// It is not made, and this is said of it.
    Refuse(Seq<char>),
    /// It is this update.
    Update(UpdateView),
}

/// What a push of one ref comes to, `local_sha` being what its source stands for, empty when
/// that cannot be told, and `remote` the refs of the contract.
pub open spec fn plan_of(
    op: OpView,
    local_sha: Seq<char>,
    remote: Seq<(Seq<char>, Seq<char>)>,
) -> PlanView {
    if op.src.len() == 0 {
        PlanView::Refuse("error "@ + op.dst + " delete not supported yet"@)
    } else if local_sha.len() == 0 {
        PlanView::Refuse("error "@ + op.dst + " cannot resolve ref"@)
    } else {
        PlanView::Update(
            UpdateView { name: op.dst, old: last_ref(remote, op.dst), new: local_sha },
        )
    }
}

/// What a push of one ref comes to.
pub enum PushPlan {
    /// It is not made, and this is said of it.
    Refuse(String),
    /// It is this update.
    Update(RefUpdate),
}

impl View for PushPlan {
    type V = PlanView;

    open spec fn view(&self) -> PlanView {
        match *self {
            PushPlan::Refuse(line) => PlanView::Refuse(line@),
            PushPlan::Update(u) => PlanView::Update(u@),
        }
    }
}

fn find_last_ref(refs: &Vec<(String, String)>, name: &str) -> (r: Option<String>)
    ensures
        text_of(r) == last_ref(pair_views(refs@), name@),
{
    let ghost all = pair_views(refs@);
    let mut n: usize = refs.len();
    assert(all.take(n as int) =~= all);
    while n > 0
        invariant
            n <= refs.len(),
            all == pair_views(refs@),
            last_ref(all, name@) == last_ref(all.take(n as int), name@),
        decreases n,
    {
        assert(all.take(n as int).last() == (refs@[n - 1].0@, refs@[n - 1].1@));
        assert(all.take(n as int).drop_last() =~= all.take(n - 1));
        if same_text(refs[n - 1].0.as_str(), name) {
            return Some(refs[n - 1].1.clone());
        }
        n -= 1;
    }
    None
}

/// Plans a push of one ref.
pub fn plan_push(op: &PushOp, local_sha: &str, remote: &Vec<(String, String)>) -> (r: PushPlan)
    ensures
        r@ == plan_of(op@, local_sha@, pair_views(remote@)),
{
    if op.src_ref.as_str().unicode_len() == 0 {
        let mut line = "error ".to_owned();
        line.append(op.dst_ref.as_str());
        line.append(" delete not supported yet");
        return PushPlan::Refuse(line);
    }
    if local_sha.unicode_len() == 0 {
        let mut line = "error ".to_owned();
        line.append(op.dst_ref.as_str());
        line.append(" cannot resolve ref");
        return PushPlan::Refuse(line);
    }
    PushPlan::Update(
        RefUpdate {
            name: op.dst_ref.clone(),
            old_sha: find_last_ref(remote, op.dst_ref.as_str()),
            new_sha: local_sha.to_owned(),
        },
    )
}

/// What is said of a push that was made: that it went through, or why it did not.
pub open spec fn result_text(dst: Seq<char>, failure: Option<Seq<char>>) -> Seq<char> {
    match failure {
        None => "ok "@ + dst,
        Some(why) => "error "@ + dst + " "@ + why,
    }
}

/// What is said of a push that was made.
pub fn push_result(dst: &str, failure: &Option<String>) -> (r: String)
    ensures
        r@ == result_text(dst@, text_of(*failure)),
{
    match failure {
        None => {
            let mut line = "ok ".to_owned();
            line.append(dst);
            line
        },
        Some(why) => {
            let mut line = "error ".to_owned();
            line.append(dst);
            line.append(" ");
            line.append(why.as_str());
            line
        },
    }
}

/// The arguments with which git lists the objects that are new with a commit.
pub open spec fn rev_list(new: Seq<char>, old: Option<Seq<char>>) -> Seq<Seq<char>> {
    seq!["rev-list"@, "--objects"@, new] + (match old {
        Some(o) => seq!["--not"@, o],
        None => Seq::empty(),
    })
}

/// The arguments with which git lists the objects that are new with a commit.
pub fn rev_list_args(local_sha: &str, old_sha: &Option<String>) -> (r: Vec<String>)
    ensures
        text_views(r@) == rev_list(local_sha@, text_of(*old_sha)),
{
    let mut args: Vec<String> = vec![
        "rev-list".to_owned(),
        "--objects".to_owned(),
        local_sha.to_owned(),
    ];
    if let Some(old) = old_sha {
        args.push("--not".to_owned());
        args.push(old.clone());
    }
    assert(text_views(args@) =~= rev_list(local_sha@, text_of(*old_sha)));
    args
}

/// The first word of each line of a text that has one.
pub open spec fn first_words(s: Seq<char>) -> Seq<Seq<char>>
    decreases s.len(),
{
    let n = position(s, '\n');
    let name = word_at(before(s, '\n'), 0);
    let rest = if n < s.len() {
        first_words(behind(s, '\n'))
    } else {
        Seq::empty()
    };
    if name.len() > 0 {
        seq![name] + rest
    } else {
        rest
    }
}

/// The objects that git lists, one a line with whatever behind them, are found in the order of
/// the lines; a line without a word names none.
pub proof fn listed_objects_are_found(line: Seq<char>, rest: Seq<char>)
    requires
        !line.contains('\n'),
    ensures
        first_words(line + seq!['\n'] + rest) == (if word_at(line, 0).len() > 0 {
            seq![word_at(line, 0)]
        } else {
            Seq::empty()
        }) + first_words(rest),
        first_words(line) == (if word_at(line, 0).len() > 0 {
            seq![word_at(line, 0)]
        } else {
            Seq::empty()
        }),
{
    text_is_split(line, '\n', rest);
    position_behind(line, '\n', Seq::empty());
    position_behind(line, '\n', seq!['\n'] + rest);
    assert(line + Seq::<char>::empty() =~= line);
    assert(line + seq!['\n'] + rest =~= line + (seq!['\n'] + rest));
    assert(Seq::<Seq<char>>::empty() + first_words(rest) =~= first_words(rest));
    assert(seq![word_at(line, 0)] + Seq::<Seq<char>>::empty() =~= seq![word_at(line, 0)]);
}

/// The objects that git has listed as new: the first word of each line; none when git failed.
pub open spec fn new_objects(success: bool, output: Seq<u8>) -> Seq<Seq<char>> {
    if success {
        first_words(lossy_text(output))
    } else {
        Seq::empty()
    }
}

fn read_first_words(s: &[char]) -> (r: Vec<String>)
    ensures
        text_views(r@) == first_words(s@),
{
    let mut names: Vec<String> = Vec::new();
    let mut at: usize = 0;
    assert(s@.skip(0) =~= s@);
    assert(text_views(names@) + first_words(s@) =~= first_words(s@));
    loop
        invariant
            at <= s.len(),
            first_words(s@) == text_views(names@) + first_words(s@.skip(at as int)),
        decreases s.len() - at,
    {
        let rest = &s[at..s.len()];
        assert(rest@ =~= s@.skip(at as int));
        let ghost sofar = text_views(names@);
        let name = word(up_to(rest, '\n'), 0);
        if name.len() > 0 {
            names.push(text_from(name));
            assert(text_views(names@) =~= sofar + seq![name@]);
        }
        let n: usize = find(rest, '\n');
        if n >= rest.len() {
            assert(sofar + Seq::<Seq<char>>::empty() =~= sofar);
            assert(first_words(s@) =~= text_views(names@));
            return names;
        }
        assert(behind(rest@, '\n') =~= s@.skip(at + n + 1));
        at = at + n + 1;
        assert(first_words(s@) =~= text_views(names@) + first_words(s@.skip(at as int)));
    }
}

/// The first word of each line of a text that has one.
pub fn parse_first_words(text: &str) -> (r: Vec<String>)
    ensures
        text_views(r@) == first_words(text@),
{
    let chars = chars_of(text);
    read_first_words(&chars)
}

/// The objects that git has listed as new.
pub fn collect_new_shas(success: bool, output: &[u8]) -> (r: Vec<String>)
    ensures
        text_views(r@) == new_objects(success, output@),
{
    if success {
        parse_first_words(lossy(output).as_str())
    } else {
        let none: Vec<String> = Vec::new();
        assert(text_views(none@) =~= Seq::empty());
        none
    }
}

/// What git is given to pack the objects that are new with a commit.
pub open spec fn pack_input(new: Seq<char>, old: Option<Seq<char>>) -> Seq<char> {
    new + "\n"@ + (match old {
        Some(o) => "--not\n"@ + o + "\n"@,
        None => Seq::empty(),
    })
}

/// What git is given to pack the objects that are new with a commit.
pub fn pack_objects_input(new_sha: &str, old_sha: &Option<String>) -> (r: String)
    ensures
        r@ == pack_input(new_sha@, text_of(*old_sha)),
{
    let mut s = new_sha.to_owned();
    s.append("\n");
    if let Some(old) = old_sha {
        s.append("--not\n");
        s.append(old.as_str());
        s.append("\n");
    }
    assert(s@ =~= pack_input(new_sha@, text_of(*old_sha)));
    s
}

/// The name that git has found for a ref; empty when git failed.
pub open spec fn resolved_name(success: bool, output: Seq<u8>) -> Seq<char> {
    if success {
        trimmed(lossy_text(output))
    } else {
        Seq::empty()
    }
}

/// The name that git has found for a ref.
pub fn resolve_local_ref(success: bool, output: &[u8]) -> (r: String)
    ensures
        r@ == resolved_name(success, output@),
{
    if success {
        let chars = chars_of(lossy(output).as_str());
        text_from(trim(&chars))
    } else {
        String::new()
    }
}

/// How far a push of one ref has come.
#[verifier::ext_equal]
pub enum StageView {
    /// It waits for what its source stands for.
    Resolving(OpView),
    /// It waits for the objects that are new with this update.
    Listing(UpdateView),
    /// It waits for the pack of these objects.
    Packing(UpdateView),
    /// It waits for what the contract makes of the push of this ref.
    Sending(Seq<char>),
    /// It is over.
    Finished,
}

/// What has happened to a push of one ref.
#[verifier::ext_equal]
pub enum EventView {
    /// Git was asked what the source stands for: whether it could tell, and what it said.
    Resolved(bool, Seq<u8>),
    /// Git was asked for the new objects: whether it could tell, and what it said.
    Listed(bool, Seq<u8>),
    /// Git has packed the new objects.
    Packed(Seq<u8>),
    /// The contract was called; what went wrong, if something did.
    Sent(Option<Seq<char>>),
}

/// What is to be done for a push of one ref.
#[verifier::ext_equal]
pub enum ActionView {
    /// Git is asked what this source stands for.
    Resolve(Seq<char>),
    /// Git is run with these arguments, to list the new objects.
    List(Seq<Seq<char>>),
    /// Git is given this, to pack the new objects.
    Pack(Seq<char>),
    /// The contract is called to store this pack and make this update.
    Send(Seq<u8>, UpdateView),
    /// This is said of the push, which is over.
    Report(Seq<char>),
    /// Nothing: what has happened is not what the push waits for.
    Nothing,
}

/// How a push of one ref starts. The deletion of a ref is refused at once.
pub open spec fn first_action(op: OpView) -> (StageView, ActionView) {
    if op.src.len() == 0 {
        (
            StageView::Finished,
            ActionView::Report("error "@ + op.dst + " delete not supported yet"@),
        )
    } else {
        (StageView::Resolving(op), ActionView::Resolve(op.src))
    }
}

/// How a push of one ref goes on, `remote` being the refs of the contract. Where nothing is new,
/// the pack that is sent is empty.
pub open spec fn next_action(
    stage: StageView,
    event: EventView,
    remote: Seq<(Seq<char>, Seq<char>)>,
) -> (StageView, ActionView) {
    match (stage, event) {
        (StageView::Resolving(op), EventView::Resolved(success, output)) => match plan_of(
            op,
            resolved_name(success, output),
            remote,
        ) {
            PlanView::Refuse(line) => (StageView::Finished, ActionView::Report(line)),
            PlanView::Update(u) => (StageView::Listing(u), ActionView::List(rev_list(u.new, u.old))),
        },
        (StageView::Listing(u), EventView::Listed(success, output)) => if new_objects(
            success,
            output,
        ).len() == 0 {
            (StageView::Sending(u.name), ActionView::Send(Seq::empty(), u))
        } else {
            (StageView::Packing(u), ActionView::Pack(pack_input(u.new, u.old)))
        },
        (StageView::Packing(u), EventView::Packed(pack)) => (
            StageView::Sending(u.name),
            ActionView::Send(pack, u),
        ),
        (StageView::Sending(dst), EventView::Sent(failure)) => (
            StageView::Finished,
            ActionView::Report(result_text(dst, failure)),
        ),
        _ => (stage, ActionView::Nothing),
    }
}

/// How far a push of one ref has come.
pub enum PushStage {
    /// It waits for what its source stands for.
    Resolving(PushOp),
    /// It waits for the objects that are new with this update.
    Listing(RefUpdate),
    /// It waits for the pack of these objects.
    Packing(RefUpdate),
    /// It waits for what the contract makes of the push of this ref.
    Sending(String),
    /// It is over.
    Finished,
}

/// What has happened to a push of one ref.
pub enum PushEvent {
    /// Git was asked what the source stands for.
    Resolved(bool, Vec<u8>),
    /// Git was asked for the new objects.
    Listed(bool, Vec<u8>),
    /// Git has packed the new objects.
    Packed(Vec<u8>),
    /// The contract was called.
    Sent(Option<String>),
}

/// What is to be done for a push of one ref.
pub enum PushAction {
    /// Git is asked what this source stands for.
    Resolve(String),
    /// Git is run with these arguments, to list the new objects.
    List(Vec<String>),
    /// Git is given this, to pack the new objects.
    Pack(String),
    /// The contract is called to store this pack and make this update.
    Send(Vec<u8>, RefUpdate),
    /// This is said of the push, which is over.
    Report(String),
    /// Nothing.
    Nothing,
}

impl View for PushStage {
    type V = StageView;

    open spec fn view(&self) -> StageView {
        match *self {
            PushStage::Resolving(op) => StageView::Resolving(op@),
            PushStage::Listing(u) => StageView::Listing(u@),
            PushStage::Packing(u) => StageView::Packing(u@),
            PushStage::Sending(dst) => StageView::Sending(dst@),
            PushStage::Finished => StageView::Finished,
        }
    }
}

impl View for PushEvent {
    type V = EventView;

    open spec fn view(&self) -> EventView {
        match *self {
            PushEvent::Resolved(success, output) => EventView::Resolved(success, output@),
            PushEvent::Listed(success, output) => EventView::Listed(success, output@),
            PushEvent::Packed(pack) => EventView::Packed(pack@),
            PushEvent::Sent(failure) => EventView::Sent(text_of(failure)),
        }
    }
}

impl View for PushAction {
    type V = ActionView;

    open spec fn view(&self) -> ActionView {
        match *self {
            PushAction::Resolve(src) => ActionView::Resolve(src@),
            PushAction::List(args) => ActionView::List(text_views(args@)),
            PushAction::Pack(input) => ActionView::Pack(input@),
            PushAction::Send(pack, u) => ActionView::Send(pack@, u@),
            PushAction::Report(line) => ActionView::Report(line@),
            PushAction::Nothing => ActionView::Nothing,
        }
    }
}

/// Starts a push of one ref.
pub fn begin_push(op: PushOp) -> (r: (PushStage, PushAction))
    ensures
        (r.0@, r.1@) == first_action(op@),
{
    if op.src_ref.as_str().unicode_len() == 0 {
        let mut line = "error ".to_owned();
        line.append(op.dst_ref.as_str());
        line.append(" delete not supported yet");
        return (PushStage::Finished, PushAction::Report(line));
    }
    let src = op.src_ref.clone();
    (PushStage::Resolving(op), PushAction::Resolve(src))
}

/// Goes on with a push of one ref.
pub fn advance_push(
    stage: PushStage,
    event: PushEvent,
    remote: &Vec<(String, String)>,
) -> (r: (PushStage, PushAction))
    ensures
        (r.0@, r.1@) == next_action(stage@, event@, pair_views(remote@)),
{
    match (stage, event) {
        (PushStage::Resolving(op), PushEvent::Resolved(success, output)) => {
            let sha = resolve_local_ref(success, &output);
            match plan_push(&op, sha.as_str(), remote) {
                PushPlan::Refuse(line) => (PushStage::Finished, PushAction::Report(line)),
                PushPlan::Update(u) => {
                    let args = rev_list_args(u.new_sha.as_str(), &u.old_sha);
                    (PushStage::Listing(u), PushAction::List(args))
                },
            }
        },
        (PushStage::Listing(u), PushEvent::Listed(success, output)) => {
            let names = collect_new_shas(success, &output);
            assert(text_views(names@).len() == names@.len());
            if names.len() == 0 {
                let none: Vec<u8> = Vec::new();
                assert(none@ =~= Seq::empty());
                (PushStage::Sending(u.name.clone()), PushAction::Send(none, u))
            } else {
                let input = pack_objects_input(u.new_sha.as_str(), &u.old_sha);
                (PushStage::Packing(u), PushAction::Pack(input))
            }
        },
        (PushStage::Packing(u), PushEvent::Packed(pack)) => (
            PushStage::Sending(u.name.clone()),
            PushAction::Send(pack, u),
        ),
        (PushStage::Sending(dst), PushEvent::Sent(failure)) => (
            PushStage::Finished,
            PushAction::Report(push_result(dst.as_str(), &failure)),
        ),
        (stage, _) => (stage, PushAction::Nothing),
    }
}

/// A push of one ref sends what it was asked to: the update moves the ref of the contract, from
/// where it is, to what the source stands for.
pub proof fn push_sends_the_update(
    op: OpView,
    resolved: Seq<u8>,
    listed: Seq<u8>,
    pack: Seq<u8>,
    remote: Seq<(Seq<char>, Seq<char>)>,
)
    requires
        op.src.len() > 0,
        resolved_name(true, resolved).len() > 0,
    ensures
        ({
            let u = UpdateView {
                name: op.dst,
                old: last_ref(remote, op.dst),
                new: resolved_name(true, resolved),
            };
            let (s0, _) = first_action(op);
            let (s1, _) = next_action(s0, EventView::Resolved(true, resolved), remote);
            let (s2, a2) = next_action(s1, EventView::Listed(true, listed), remote);
            let (s3, a3) = next_action(s2, EventView::Packed(pack), remote);
            if new_objects(true, listed).len() == 0 {
                a2 == ActionView::Send(Seq::empty(), u)
            } else {
                a3 == ActionView::Send(pack, u)
            }
        }),
{
}

/// A push of one ref asks git for what its source stands for, then for what is new with that
/// besides what the contract has, and where something is, for a pack of it; in the end it reports
/// what the contract made of it, under the name of the ref.
pub proof fn push_asks_in_turn(
    op: OpView,
    resolved: Seq<u8>,
    listed: Seq<u8>,
    pack: Seq<u8>,
    failure: Option<Seq<char>>,
    remote: Seq<(Seq<char>, Seq<char>)>,
)
    requires
        op.src.len() > 0,
        resolved_name(true, resolved).len() > 0,
    ensures
        ({
            let new = resolved_name(true, resolved);
            let (s0, a0) = first_action(op);
            let (s1, a1) = next_action(s0, EventView::Resolved(true, resolved), remote);
            let (s2, a2) = next_action(s1, EventView::Listed(true, listed), remote);
            let s3 = if new_objects(true, listed).len() == 0 {
                s2
            } else {
                next_action(s2, EventView::Packed(pack), remote).0
            };
            let (s4, a4) = next_action(s3, EventView::Sent(failure), remote);
            &&& a0 == ActionView::Resolve(op.src)
            &&& match last_ref(remote, op.dst) {
                Some(old) => a1 == ActionView::List(
                    seq!["rev-list"@, "--objects"@, new, "--not"@, old],
                ) && (new_objects(true, listed).len() > 0 ==> a2 == ActionView::Pack(
                    new + "\n"@ + ("--not\n"@ + old + "\n"@),
                )),
                None => a1 == ActionView::List(seq!["rev-list"@, "--objects"@, new]) && (new_objects(
                    true,
                    listed,
                ).len() > 0 ==> a2 == ActionView::Pack(new + "\n"@)),
            }
            &&& s4 is Finished
            &&& a4 == ActionView::Report(
                match failure {
                    None => "ok "@ + op.dst,
                    Some(why) => "error "@ + op.dst + " "@ + why,
                },
            )
        }),
{
    let new = resolved_name(true, resolved);
    assert(seq!["rev-list"@, "--objects"@, new] + Seq::<Seq<char>>::empty() =~= seq![
        "rev-list"@,
        "--objects"@,
        new,
    ]);
    assert(new + "\n"@ + Seq::<char>::empty() =~= new + "\n"@);
    if let Some(old) = last_ref(remote, op.dst) {
        assert(seq!["rev-list"@, "--objects"@, new] + seq!["--not"@, old] =~= seq![
            "rev-list"@,
            "--objects"@,
            new,
            "--not"@,
            old,
        ]);
    }
}

/// A push without a source, which would delete the ref, and one whose source stands for nothing
/// are reported as errors under the name of the ref, and nothing is sent.
pub proof fn push_without_source_is_refused(
    op: OpView,
    resolved: Seq<u8>,
    success: bool,
    remote: Seq<(Seq<char>, Seq<char>)>,
)
    ensures
        op.src.len() == 0 ==> first_action(op) == (
            StageView::Finished,
            ActionView::Report("error "@ + op.dst + " delete not supported yet"@),
        ),
        op.src.len() > 0 && (!success || trimmed(lossy_text(resolved)).len() == 0) ==> next_action(
            first_action(op).0,
            EventView::Resolved(success, resolved),
            remote,
        ) == (
            StageView::Finished,
            ActionView::Report("error "@ + op.dst + " cannot resolve ref"@),
        ),
{
}

/// What git found for a source is its output without the white space around it.
pub proof fn resolved_name_is_trimmed(
    output: Seq<u8>,
    lead: Seq<char>,
    name: Seq<char>,
    tail: Seq<char>,
)
    requires
        forall|i: int| 0 <= i < lead.len() ==> is_space(#[trigger] lead[i]),
        forall|i: int| 0 <= i < tail.len() ==> is_space(#[trigger] tail[i]),
        name.len() > 0 && !is_space(name[0]) && !is_space(name.last()),
        lossy_text(output) == lead + name + tail,
    ensures
        resolved_name(true, output) == name,
{
    white_space_is_trimmed(lead, name, tail);
}

/// The endpoint of a network, unless another is configured.
pub fn default_rpc(env: &str) -> (r: &'static str)
    ensures
        r@ == (if env@ == "mainnet"@ {
            "https://rpc.mainnet.fastnear.com"@
        } else {
            "https://rpc.testnet.fastnear.com"@
        }),
{
    if same_text(env, "mainnet") {
        "https://rpc.mainnet.fastnear.com"
    } else {
        "https://rpc.testnet.fastnear.com"
    }
}

/// The account that signs: that before an at sign in the name of the contract, else that which
/// is configured, else the contract itself.
pub open spec fn signer_of(contract: Seq<char>, configured: Option<Seq<char>>) -> Seq<char> {
    if contract.contains('@') {
        before(contract, '@')
    } else {
        match configured {
            Some(account) => account,
            None => contract,
        }
    }
}

/// The account before an at sign signs; without one, the account that is configured does, and
/// where none is, that of the contract.
pub proof fn signer_is_named_configured_or_contract(
    account: Seq<char>,
    contract: Seq<char>,
    configured: Option<Seq<char>>,
)
    requires
        !account.contains('@'),
        !contract.contains('@'),
    ensures
        signer_of(account + seq!['@'] + contract, configured) == account,
        configured matches Some(c) ==> signer_of(contract, configured) == c,
        signer_of(contract, None) == contract,
{
    let named = account + seq!['@'] + contract;
    assert(named[account.len() as int] == '@');
    text_is_split(account, '@', contract);
}

/// The account that signs.
pub fn signer_account(contract_id: &str, configured: Option<String>) -> (r: String)
    ensures
        r@ == signer_of(contract_id@, text_of(configured)),
{
    let chars = chars_of(contract_id);
    proof {
        crate::words::position_is_first(chars@, '@');
    }
    if find(&chars, '@') < chars.len() {
        text_from(up_to(&chars, '@'))
    } else {
        match configured {
            Some(account) => account,
            None => contract_id.to_owned(),
        }
    }
}

/// The file with an account's key.
pub open spec fn key_file(home: Seq<char>, env: Seq<char>, account: Seq<char>) -> Seq<char> {
    home + "/.near-credentials/"@ + env + "/"@ + account + ".json"@
}

/// The file with an account's key is that of the account in the directory of the network.
pub proof fn key_file_is_of_account_and_network(
    home: Seq<char>,
    env: Seq<char>,
    account: Seq<char>,
)
    ensures
        ({
            let path = key_file(home, env, account);
            let n = home.len() as int;
            let m = n + 19 + env.len();
            &&& path.take(n) == home
            &&& path.subrange(n, n + 19) == "/.near-credentials/"@
            &&& path.subrange(n + 19, m) == env
            &&& path[m] == '/'
            &&& path.subrange(m + 1, m + 1 + account.len()) == account
            &&& path.skip(m + 1 + account.len()) == ".json"@
        }),
{
    reveal_strlit("/.near-credentials/");
    reveal_strlit("/");
    reveal_strlit(".json");
    let path = key_file(home, env, account);
    let n = home.len() as int;
    let m = n + 19 + env.len();
    assert(path.take(n) =~= home);
    assert(path.subrange(n, n + 19) =~= "/.near-credentials/"@);
    assert(path.subrange(n + 19, m) =~= env);
    assert(path.subrange(m + 1, m + 1 + account.len()) =~= account);
    assert(path.skip(m + 1 + account.len()) =~= ".json"@);
}

/// The file with an account's key.
pub fn credentials_path(home: &str, env: &str, account: &str) -> (r: String)
    ensures
        r@ == key_file(home@, env@, account@),
{
    let mut s = home.to_owned();
    s.append("/.near-credentials/");
    s.append(env);
    s.append("/");
    s.append(account);
    s.append(".json");
    s
}

/// The key in its file, `None` when there is none; an error when the file holds no JSON.
pub fn private_key(file: &[u8]) -> (r: Result<Option<String>, String>)
    ensures
        match json_read(file@) {
            Ok(json) => r matches Ok(key) && text_of(key) == text_at(json, "private_key"@),
            Err(m) => r matches Err(e) && e@ == m,
        },
{
    match read_json(file) {
        Err(e) => Err(e),
        Ok(json) => Ok(get_text(&json, "private_key")),
    }
}

} // verus!
