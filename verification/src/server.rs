//! The bodies of the smart HTTP protocol and of the other endpoints of the server.

use crate::browser::{describe_pack, pack_json};
use crate::delta::push_bytes;
use crate::digest::{sha256_digest, sha256_of};
use crate::encoding::{base64_bytes, base64_reads_back, base64_text, decode_base64};
use crate::json::{
    ascending_keys_are_plain, field_is_found, field_views, field_views_index, get, get_text,
    json_read, json_text, json_views, json_views_index, read_json, text_at, text_field, value_at,
    write_json, Json, JsonView,
};
use crate::merge::{merge_packs, merged, merging_keeps_objects};
use crate::object::{copy_bytes, PackView, ParseResult};
use crate::order::in_pack_order;
use crate::outcome::Outcome;
use crate::packfile::{parse_outcome, run_parse};
use crate::packing::{build, pack_bytes, within_offsets};
use crate::pktline::{
    encode, flush, flush_bytes, framed, framed_lines, framed_lines_read_back, line_views,
    read_lines, read_until_flush,
};
use crate::refs::{text_of, update_views, RefUpdate, UpdateView};
use crate::storage::{pack_views, pair_views};
use crate::text::{hex_text, same_text, text_views, to_hex};
use crate::words::{
    before, behind, chars_of, find, has_prefix, is_space, is_text, lossy, lossy_text,
    newlines_are_left_out, position, position_behind, starts_with, text_from, text_is_split, trim,
    trim_newlines, trimmed, up_to, white_space_has_no_words, without_newlines, word, word_at,
    words_are_separated,
};
use vstd::prelude::*;
use vstd::string::*;
use vstd::utf8::encode_utf8;

verus! {

/// The name that stands for no object.
pub open spec fn zero_sha() -> Seq<char> {
    "0000000000000000000000000000000000000000"@
}

/// What the server can do.
pub open spec fn capabilities() -> Seq<char> {
    "report-status delete-refs"@
}

/// A line of text in its frame.
pub open spec fn framed_text(s: Seq<char>) -> Seq<u8> {
    framed(encode_utf8(s))
}

/// The first of some refs with a name; their number when there is none.
pub open spec fn first_ref(refs: Seq<(Seq<char>, Seq<char>)>, name: Seq<char>) -> nat
    decreases refs.len(),
{
    if refs.len() == 0 || refs[0].0 == name {
        0
    } else {
        1 + first_ref(refs.drop_first(), name)
    }
}

/// The ref that HEAD stands for: `main`, else `master`, else the first.
pub open spec fn head_of(refs: Seq<(Seq<char>, Seq<char>)>) -> (Seq<char>, Seq<char>) {
    let main = first_ref(refs, "refs/heads/main"@);
    let master = first_ref(refs, "refs/heads/master"@);
    if main < refs.len() {
        refs[main as int]
    } else if master < refs.len() {
        refs[master as int]
    } else {
        refs[0]
    }
}

/// The lines that advertise refs.
pub open spec fn ref_lines(refs: Seq<(Seq<char>, Seq<char>)>) -> Seq<u8>
    decreases refs.len(),
{
    if refs.len() == 0 {
        Seq::empty()
    } else {
        ref_lines(refs.drop_last()) + framed_text(
            refs.last().1 + " "@ + refs.last().0 + "\n"@,
        )
    }
}

/// The advertisement of refs for a service. HEAD comes first and carries what the server can
/// do; without refs, the name of no object does.
pub open spec fn advertisement(service: Seq<char>, refs: Seq<(Seq<char>, Seq<char>)>) -> Seq<u8> {
    framed_text("# service="@ + service + "\n"@) + flush_bytes() + (if refs.len() == 0 {
        framed_text(zero_sha() + " capabilities^{}\0"@ + capabilities() + "\n"@)
    } else {
        framed_text(
            head_of(refs).1 + " HEAD\0"@ + capabilities() + " symref=HEAD:"@ + head_of(refs).0
                + "\n"@,
        ) + ref_lines(refs)
    }) + flush_bytes()
}

/// The media type of an advertisement.
pub open spec fn advertisement_type(service: Seq<char>) -> Seq<char> {
    "application/x-"@ + service + "-advertisement"@
}

/// The lines of an advertisement behind the name of the service.
pub open spec fn advertised_lines(refs: Seq<(Seq<char>, Seq<char>)>) -> Seq<Seq<u8>> {
    if refs.len() == 0 {
        seq![encode_utf8(zero_sha() + " capabilities^{}\0"@ + capabilities() + "\n"@)]
    } else {
        seq![
            encode_utf8(
                head_of(refs).1 + " HEAD\0"@ + capabilities() + " symref=HEAD:"@ + head_of(refs).0
                    + "\n"@,
            ),
        ] + refs.map_values(
            |r: (Seq<char>, Seq<char>)| encode_utf8(r.1 + " "@ + r.0 + "\n"@),
        )
    }
}

proof fn lemma_framed_one(line: Seq<u8>)
    ensures
        framed_lines(seq![line]) == framed(line),
{
    reveal_with_fuel(framed_lines, 2);
    assert(seq![line].drop_first() =~= Seq::empty());
    assert(framed_lines(seq![line]) =~= framed(line));
}

proof fn lemma_framed_push(lines: Seq<Seq<u8>>, line: Seq<u8>)
    ensures
        framed_lines(lines.push(line)) == framed_lines(lines) + framed(line),
    decreases lines.len(),
{
    if lines.len() == 0 {
        lemma_framed_one(line);
        assert(lines.push(line) =~= seq![line]);
        assert(framed_lines(lines) + framed(line) =~= framed(line));
    } else {
        lemma_framed_push(lines.drop_first(), line);
        assert(lines.push(line).drop_first() =~= lines.drop_first().push(line));
        assert(framed_lines(lines.push(line)) =~= framed_lines(lines) + framed(line));
    }
}

proof fn lemma_ref_lines(first: Seq<u8>, refs: Seq<(Seq<char>, Seq<char>)>)
    ensures
        framed(first) + ref_lines(refs) == framed_lines(
            seq![first] + refs.map_values(
                |r: (Seq<char>, Seq<char>)| encode_utf8(r.1 + " "@ + r.0 + "\n"@),
            ),
        ),
    decreases refs.len(),
{
    let line = |r: (Seq<char>, Seq<char>)| encode_utf8(r.1 + " "@ + r.0 + "\n"@);
    if refs.len() == 0 {
        assert(seq![first] + refs.map_values(line) =~= Seq::empty().push(first));
        lemma_framed_push(Seq::empty(), first);
        assert(framed(first) + ref_lines(refs) =~= framed_lines(Seq::empty()) + framed(first));
    } else {
        let before = refs.drop_last();
        lemma_ref_lines(first, before);
        let lines = seq![first] + before.map_values(line);
        assert(seq![first] + refs.map_values(line) =~= lines.push(line(refs.last())));
        lemma_framed_push(lines, line(refs.last()));
        assert(framed(first) + ref_lines(refs) =~= framed_lines(lines) + framed(line(refs.last())));
    }
}

/// A client reads an advertisement back: the name of the service, then the lines for HEAD and
/// the refs, as long as each line is short enough for its frame.
pub proof fn advertisement_reads_back(service: Seq<char>, refs: Seq<(Seq<char>, Seq<char>)>)
    requires
        encode_utf8("# service="@ + service + "\n"@).len() + 4 < 0x1_0000,
        forall|i: int|
            0 <= i < advertised_lines(refs).len() ==> (#[trigger] advertised_lines(refs)[i]).len() + 4
                < 0x1_0000,
    ensures
        read_lines(advertisement(service, refs)).0 == seq![
            encode_utf8("# service="@ + service + "\n"@),
        ],
        read_lines(read_lines(advertisement(service, refs)).1) == (
            advertised_lines(refs),
            Seq::<u8>::empty(),
        ),
{
    let first = encode_utf8("# service="@ + service + "\n"@);
    let lines = advertised_lines(refs);
    let rest = framed_lines(lines) + flush_bytes();
    lemma_framed_one(first);
    assert(advertisement(service, refs) == framed_lines(seq![first]) + flush_bytes() + rest) by {
        if refs.len() == 0 {
            lemma_framed_one(lines[0]);
        } else {
            let head = encode_utf8(
                head_of(refs).1 + " HEAD\0"@ + capabilities() + " symref=HEAD:"@ + head_of(refs).0
                    + "\n"@,
            );
            lemma_ref_lines(head, refs);
        }
        assert(advertisement(service, refs) =~= framed_lines(seq![first]) + flush_bytes() + rest);
    }
    framed_lines_read_back(seq![first], rest);
    assert(rest =~= framed_lines(lines) + flush_bytes() + Seq::empty());
    framed_lines_read_back(lines, Seq::empty());
}

pub(crate) proof fn lemma_first_ref(refs: Seq<(Seq<char>, Seq<char>)>, name: Seq<char>)
    ensures
        first_ref(refs, name) <= refs.len(),
        first_ref(refs, name) < refs.len() ==> refs[first_ref(refs, name) as int].0 == name,
        forall|i: int| 0 <= i < first_ref(refs, name) ==> (#[trigger] refs[i]).0 != name,
    decreases refs.len(),
{
    if refs.len() > 0 && refs[0].0 != name {
        let rest = refs.drop_first();
        lemma_first_ref(rest, name);
        assert forall|i: int| 0 <= i < first_ref(refs, name) implies (#[trigger] refs[i]).0 != name by {
            if i > 0 {
                assert(rest[i - 1].0 != name);
            }
        }
    }
}

/// The first of some refs with a name is the one at `i`, where none before it has the name; there
/// is none where none has it.
pub proof fn first_ref_is_found(refs: Seq<(Seq<char>, Seq<char>)>, name: Seq<char>, i: int)
    requires
        0 <= i <= refs.len(),
        i < refs.len() ==> refs[i].0 == name,
        forall|k: int| 0 <= k < i ==> (#[trigger] refs[k]).0 != name,
    ensures
        first_ref(refs, name) == i,
{
    lemma_first_ref(refs, name);
    if first_ref(refs, name) < i {
        assert(refs[first_ref(refs, name) as int].0 != name);
    }
}

/// HEAD stands for `main` if there is such a ref, else for `master` if there is one, else for the
/// first ref.
pub proof fn head_is_main_or_master(refs: Seq<(Seq<char>, Seq<char>)>, i: int)
    requires
        0 <= i < refs.len(),
    ensures
        refs.contains(head_of(refs)),
        refs[i].0 == "refs/heads/main"@ ==> head_of(refs).0 == "refs/heads/main"@,
        refs[i].0 == "refs/heads/master"@ ==> head_of(refs).0 == "refs/heads/main"@ || head_of(
            refs,
        ).0 == "refs/heads/master"@,
        (forall|k: int|
            0 <= k < refs.len() ==> (#[trigger] refs[k]).0 != "refs/heads/main"@ && refs[k].0
                != "refs/heads/master"@) ==> head_of(refs) == refs[0],
{
    lemma_first_ref(refs, "refs/heads/main"@);
    lemma_first_ref(refs, "refs/heads/master"@);
    assert(refs.contains(refs[0]));
    assert(refs[i] == refs[i]);
}

/// An advertisement has a line for HEAD and one for each ref, in their order: what it points to, a
/// space, its name and a line feed. That for HEAD says what the server can do and which ref it
/// stands for; without refs, the name of no object carries what the server can do.
pub proof fn each_ref_is_advertised(refs: Seq<(Seq<char>, Seq<char>)>, i: int)
    ensures
        0 <= i < refs.len() ==> advertised_lines(refs).len() == refs.len() + 1 && advertised_lines(
            refs,
        )[i + 1] == encode_utf8(refs[i].1 + " "@ + refs[i].0 + "\n"@) && advertised_lines(refs)[0]
            == encode_utf8(
            head_of(refs).1 + " HEAD\0"@ + "report-status delete-refs"@ + " symref=HEAD:"@
                + head_of(refs).0 + "\n"@,
        ),
        refs.len() == 0 ==> advertised_lines(refs) == seq![
            encode_utf8(
                "0000000000000000000000000000000000000000"@ + " capabilities^{}\0"@
                    + "report-status delete-refs"@ + "\n"@,
            ),
        ],
{
}

/// A command reads back: the old name, the new name and the ref, as long as these hold neither
/// spaces nor zero bytes nor line feeds; what follows a zero byte behind the ref is no part of
/// it.
pub proof fn command_reads_back(old: Seq<char>, new: Seq<char>, name: Seq<char>, rest: Seq<char>)
    requires
        !old.contains(' ') && !old.contains('\0'),
        !new.contains(' '),
        !name.contains('\0'),
        rest.len() > 0 ==> rest[0] == '\0',
    ensures
        command_update(old + seq![' '] + new + seq![' '] + name + rest) == Some(
            UpdateView {
                name,
                old: if old == zero_sha() {
                    None
                } else {
                    Some(old)
                },
                new,
            },
        ),
{
    let text = old + seq![' '] + new + seq![' '] + name + rest;
    let tail = new + seq![' '] + name + rest;
    lemma_position(old, ' ', seq![' '] + tail);
    assert(text =~= old + (seq![' '] + tail));
    assert(behind(text, ' ') =~= tail);
    assert(before(text, ' ') =~= old);
    lemma_position(new, ' ', seq![' '] + (name + rest));
    assert(tail =~= new + (seq![' '] + (name + rest)));
    assert(before(tail, ' ') =~= new);
    assert(behind(tail, ' ') =~= name + rest);
    lemma_position(old, '\0', Seq::empty());
    assert(old + Seq::<char>::empty() =~= old);
    assert(before(old, '\0') =~= old);
    lemma_position(name, '\0', rest);
    assert(before(name + rest, '\0') =~= name);
}

proof fn lemma_position(s: Seq<char>, c: char, rest: Seq<char>)
    requires
        !s.contains(c),
        rest.len() > 0 ==> rest[0] == c,
    ensures
        position(s + rest, c) == s.len(),
{
    position_behind(s, c, rest);
}

/// Appends a line of text in its frame.
fn push_line(out: &mut Vec<u8>, s: &str)
    ensures
        final(out)@ == old(out)@ + framed_text(s@),
{
    let line = encode(s.as_bytes());
    push_bytes(out, &line);
}

fn push_flush(out: &mut Vec<u8>)
    ensures
        final(out)@ == old(out)@ + flush_bytes(),
{
    let packet = flush();
    push_bytes(out, &packet);
}

pub(crate) fn find_ref(refs: &Vec<(String, String)>, name: &str) -> (r: usize)
    ensures
        r == first_ref(pair_views(refs@), name@),
        r <= refs.len(),
{
    let ghost all = pair_views(refs@);
    let mut i: usize = 0;
    assert(all.skip(0) =~= all);
    while i < refs.len()
        invariant
            i <= refs.len(),
            all == pair_views(refs@),
            first_ref(all, name@) == i + first_ref(all.skip(i as int), name@),
        decreases refs.len() - i,
    {
        assert(all.skip(i as int).drop_first() =~= all.skip(i + 1));
        assert(all.skip(i as int)[0] == (refs@[i as int].0@, refs@[i as int].1@));
        if same_text(refs[i].0.as_str(), name) {
            return i;
        }
        i += 1;
    }
    i
}

/// The place of the ref that HEAD stands for.
fn head_place(refs: &Vec<(String, String)>) -> (r: usize)
    requires
        refs.len() > 0,
    ensures
        r < refs.len(),
        head_of(pair_views(refs@)) == pair_views(refs@)[r as int],
{
    let main: usize = find_ref(refs, "refs/heads/main");
    if main < refs.len() {
        return main;
    }
    let master: usize = find_ref(refs, "refs/heads/master");
    if master < refs.len() {
        return master;
    }
    0
}

/// Appends the line for HEAD.
fn push_head(out: &mut Vec<u8>, refs: &Vec<(String, String)>)
    requires
        refs.len() > 0,
    ensures
        final(out)@ == old(out)@ + framed_text(
            head_of(pair_views(refs@)).1 + " HEAD\0"@ + capabilities() + " symref=HEAD:"@ + head_of(
                pair_views(refs@),
            ).0 + "\n"@,
        ),
{
    let h: usize = head_place(refs);
    let mut line = refs[h].1.clone();
    line.append(" HEAD\0");
    line.append("report-status delete-refs");
    line.append(" symref=HEAD:");
    line.append(refs[h].0.as_str());
    line.append("\n");
    push_line(out, line.as_str());
}

/// Appends the lines that advertise refs.
fn push_refs(out: &mut Vec<u8>, refs: &Vec<(String, String)>)
    ensures
        final(out)@ == old(out)@ + ref_lines(pair_views(refs@)),
{
    let ghost all = pair_views(refs@);
    let mut i: usize = 0;
    assert(all.take(0) =~= Seq::empty());
    assert(out@ =~= old(out)@ + ref_lines(all.take(0)));
    while i < refs.len()
        invariant
            i <= refs.len(),
            all == pair_views(refs@),
            out@ == old(out)@ + ref_lines(all.take(i as int)),
        decreases refs.len() - i,
    {
        let mut line = refs[i].1.clone();
        line.append(" ");
        line.append(refs[i].0.as_str());
        line.append("\n");
        push_line(out, line.as_str());
        assert(all.take(i + 1).drop_last() =~= all.take(i as int));
        assert(all.take(i + 1).last() == (refs@[i as int].0@, refs@[i as int].1@));
        assert(out@ =~= old(out)@ + ref_lines(all.take(i + 1)));
        i += 1;
    }
    assert(all.take(i as int) =~= all);
}

/// The body that advertises refs for a service.
pub fn info_refs_body(service: &str, refs: &Vec<(String, String)>) -> (r: Vec<u8>)
    ensures
        r@ == advertisement(service@, pair_views(refs@)),
{
    let mut body: Vec<u8> = Vec::new();
    let mut first = "# service=".to_owned();
    first.append(service);
    first.append("\n");
    push_line(&mut body, first.as_str());
    push_flush(&mut body);
    if refs.len() == 0 {
        let mut line = "0000000000000000000000000000000000000000".to_owned();
        line.append(" capabilities^{}\0");
        line.append("report-status delete-refs");
        line.append("\n");
        push_line(&mut body, line.as_str());
    } else {
        push_head(&mut body, refs);
        push_refs(&mut body, refs);
    }
    push_flush(&mut body);
    assert(body@ =~= advertisement(service@, pair_views(refs@)));
    body
}

/// The media type of an advertisement has the name of the service in its middle.
pub proof fn advertisement_type_names_service(service: Seq<char>)
    ensures
        ({
            let text = advertisement_type(service);
            &&& text.take(14) == "application/x-"@
            &&& text.subrange(14, 14 + service.len() as int) == service
            &&& text.skip(14 + service.len() as int) == "-advertisement"@
        }),
{
    reveal_strlit("application/x-");
    reveal_strlit("-advertisement");
    let text = advertisement_type(service);
    assert(text.take(14) =~= "application/x-"@);
    assert(text.subrange(14, 14 + service.len() as int) =~= service);
    assert(text.skip(14 + service.len() as int) =~= "-advertisement"@);
}

/// The media type of an advertisement.
pub fn info_refs_type(service: &str) -> (r: String)
    ensures
        r@ == advertisement_type(service@),
{
    let mut s = "application/x-".to_owned();
    s.append(service);
    s.append("-advertisement");
    s
}

/// The ref update that a command asks for: the old and the new name and the ref, with spaces
/// between them, where what a zero byte follows in the first and the last is left out.
pub open spec fn command_update(text: Seq<char>) -> Option<UpdateView> {
    let rest = behind(text, ' ');
    if position(text, ' ') >= text.len() || position(rest, ' ') >= rest.len() {
        None
    } else {
        let old = before(before(text, ' '), '\0');
        Some(
            UpdateView {
                name: before(behind(rest, ' '), '\0'),
                old: if old == zero_sha() {
                    None
                } else {
                    Some(old)
                },
                new: before(rest, ' '),
            },
        )
    }
}

/// The ref updates that lines ask for. A line that is no command is passed over.
pub open spec fn commands(lines: Seq<Seq<u8>>) -> Seq<UpdateView>
    decreases lines.len(),
{
    if lines.len() == 0 {
        Seq::empty()
    } else {
        let sofar = commands(lines.drop_last());
        match command_update(without_newlines(lossy_text(lines.last()))) {
            Some(u) => sofar.push(u),
            None => sofar,
        }
    }
}

/// The text of a command: what the ref points to, or the name of no object for a ref that is to
/// be created, what it is to point to, and the ref.
pub open spec fn command_text(u: UpdateView) -> Seq<char> {
    (match u.old {
        Some(old) => old,
        None => zero_sha(),
    }) + seq![' '] + u.new + seq![' '] + u.name
}

/// Whether an update can be written as a command, with this behind it: its names are without
/// spaces and zero bytes, and what is behind it starts with a zero byte, if there is something.
pub open spec fn is_command(u: UpdateView, behind: Seq<char>) -> bool {
    &&& u.old matches Some(old) ==> !old.contains(' ') && !old.contains('\0') && old != zero_sha()
    &&& !u.new.contains(' ')
    &&& !u.name.contains('\0')
    &&& behind.len() > 0 ==> behind[0] == '\0'
    &&& (command_text(u) + behind).last() != '\n'
}

proof fn lemma_command(u: UpdateView, rest: Seq<char>, n: nat)
    requires
        is_command(u, rest),
    ensures
        command_update(
            without_newlines(command_text(u) + rest + Seq::new(n, |i: int| '\n')),
        ) == Some(u),
{
    let old = match u.old {
        Some(old) => old,
        None => zero_sha(),
    };
    reveal_strlit("0000000000000000000000000000000000000000");
    assert(!old.contains(' ') && !old.contains('\0'));
    newlines_are_left_out(command_text(u) + rest, n);
    command_reads_back(old, u.new, u.name, rest);
    assert(u =~= UpdateView {
        name: u.name,
        old: if old == zero_sha() {
            None
        } else {
            Some(old)
        },
        new: u.new,
    });
}

/// The commands of a push are read as the updates that they ask for, each of them and in their
/// order, with or without line feeds at their ends and capabilities behind the refs.
pub proof fn commands_read_back(
    updates: Seq<UpdateView>,
    behind: Seq<Seq<char>>,
    feeds: Seq<nat>,
    lines: Seq<Seq<u8>>,
)
    requires
        updates.len() == behind.len() == feeds.len() == lines.len(),
        forall|i: int|
            0 <= i < updates.len() ==> is_command(#[trigger] updates[i], behind[i]) && lossy_text(
                lines[i],
            ) == command_text(updates[i]) + behind[i] + Seq::new(feeds[i], |k: int| '\n'),
    ensures
        commands(lines) == updates,
    decreases lines.len(),
{
    if lines.len() == 0 {
        assert(updates =~= Seq::empty());
    } else {
        let n = lines.len() - 1;
        let (u, b, f, l) = (
            updates.drop_last(),
            behind.drop_last(),
            feeds.drop_last(),
            lines.drop_last(),
        );
        assert forall|i: int| 0 <= i < u.len() implies is_command(#[trigger] u[i], b[i])
            && lossy_text(l[i]) == command_text(u[i]) + b[i] + Seq::new(f[i], |k: int| '\n') by {
            assert(is_command(updates[i], behind[i]));
        }
        commands_read_back(u, b, f, l);
        assert(is_command(updates[n], behind[n]));
        lemma_command(updates[n], behind[n], feeds[n]);
        assert(u.push(updates[n]) =~= updates);
    }
}

/// The body of a push is its commands in their frames, a flush packet and the pack: all commands
/// are found, and the pack is what is behind them.
pub proof fn push_body_reads_back(lines: Seq<Seq<u8>>, pack: Seq<u8>)
    requires
        forall|i: int| 0 <= i < lines.len() ==> (#[trigger] lines[i]).len() + 4 < 0x1_0000,
    ensures
        commands(read_lines(framed_lines(lines) + flush_bytes() + pack).0) == commands(lines),
        read_lines(framed_lines(lines) + flush_bytes() + pack).1 == pack,
{
    framed_lines_read_back(lines, pack);
}

/// A line that is no command, as it has fewer than two spaces, asks for nothing.
pub proof fn other_lines_ask_for_nothing(
    lines: Seq<Seq<u8>>,
    line: Seq<u8>,
    front: Seq<char>,
    back: Seq<char>,
)
    requires
        !front.contains(' '),
        !back.contains(' '),
        without_newlines(lossy_text(line)) == front || without_newlines(lossy_text(line)) == front
            + seq![' '] + back,
    ensures
        commands(lines.push(line)) == commands(lines),
{
    assert(lines.push(line).drop_last() =~= lines);
    let text = without_newlines(lossy_text(line));
    text_is_split(front, ' ', back);
    lemma_position(front, ' ', Seq::empty());
    assert(front + Seq::<char>::empty() =~= front);
    lemma_position(back, ' ', Seq::empty());
    assert(back + Seq::<char>::empty() =~= back);
}

/// Reads a command.
pub fn parse_command(line: &str) -> (r: Option<RefUpdate>)
    ensures
        match command_update(without_newlines(line@)) {
            Some(u) => r matches Some(v) && v@ == u,
            None => r is None,
        },
{
    let all = chars_of(line);
    let text = trim_newlines(&all);
    let i: usize = find(text, ' ');
    if i >= text.len() {
        return None;
    }
    let rest = &text[i + 1..text.len()];
    assert(rest@ =~= behind(text@, ' '));
    let j: usize = find(rest, ' ');
    if j >= rest.len() {
        return None;
    }
    let last = &rest[j + 1..rest.len()];
    assert(last@ =~= behind(rest@, ' '));
    let old = up_to(up_to(text, ' '), '\0');
    let old_sha = if is_text(old, "0000000000000000000000000000000000000000") {
        None
    } else {
        Some(text_from(old))
    };
    Some(
        RefUpdate {
            name: text_from(up_to(last, '\0')),
            old_sha,
            new_sha: text_from(up_to(rest, ' ')),
        },
    )
}

/// Reads the body of a push: the ref updates that it asks for, and the pack behind them.
pub fn read_push(body: &[u8]) -> (r: (Vec<RefUpdate>, Vec<u8>))
    ensures
        update_views(r.0@) == commands(read_lines(body@).0),
        r.1@ == read_lines(body@).1,
{
    let (lines, pack) = read_until_flush(body);
    let ghost all = line_views(lines@);
    let mut updates: Vec<RefUpdate> = Vec::new();
    let mut i: usize = 0;
    assert(all.take(0) =~= Seq::empty());
    assert(update_views(updates@) =~= Seq::empty());
    while i < lines.len()
        invariant
            i <= lines.len(),
            all == line_views(lines@),
            update_views(updates@) == commands(all.take(i as int)),
        decreases lines.len() - i,
    {
        let ghost sofar = update_views(updates@);
        assert(all.take(i + 1).drop_last() =~= all.take(i as int));
        assert(all.take(i + 1).last() == lines@[i as int]@);
        let text = lossy(&lines[i]);
        if let Some(u) = parse_command(text.as_str()) {
            let ghost view = u@;
            updates.push(u);
            assert(update_views(updates@) =~= sofar.push(view));
        }
        i += 1;
    }
    assert(all.take(i as int) =~= all);
    (updates, copy_bytes(pack))
}

/// What became of a push.
pub enum PushReply {
    /// The contract took it.
    Accepted,
    /// The contract refused it, for this reason.
    Refused(String),
    /// The contract could not be called.
    Unreachable,
}

/// What is reported of a push, one text a line.
pub open spec fn report_lines(reply: PushReply, names: Seq<Seq<char>>) -> Seq<Seq<char>> {
    match reply {
        PushReply::Accepted => seq!["unpack ok"@] + names.map_values(|n: Seq<char>| "ok "@ + n),
        PushReply::Refused(why) => seq!["ng unpack "@ + why@],
        PushReply::Unreachable => seq!["ng unpack contract call failed"@],
    }
}

/// A push that the contract took is reported with a line for the pack and one for each ref, in
/// their order; one that it did not take is reported with the reason.
pub proof fn report_tells_of_each_ref(reply: PushReply, names: Seq<Seq<char>>, i: int)
    requires
        0 <= i < names.len(),
    ensures
        match reply {
            PushReply::Accepted => {
                let lines = report_lines(reply, names);
                lines.len() == names.len() + 1 && lines[0] == "unpack ok"@ && lines[i + 1] == "ok "@
                    + names[i]
            },
            PushReply::Refused(why) => report_lines(reply, names) == seq!["ng unpack "@ + why@],
            PushReply::Unreachable => report_lines(reply, names) == seq![
                "ng unpack contract call failed"@,
            ],
        },
{
}

/// Lines of text in their frames.
pub open spec fn framed_texts(lines: Seq<Seq<char>>) -> Seq<u8>
    decreases lines.len(),
{
    if lines.len() == 0 {
        Seq::empty()
    } else {
        framed_texts(lines.drop_last()) + framed_text(lines.last() + "\n"@)
    }
}

proof fn lemma_framed_texts(lines: Seq<Seq<char>>)
    ensures
        framed_texts(lines) == framed_lines(
            lines.map_values(|l: Seq<char>| encode_utf8(l + "\n"@)),
        ),
    decreases lines.len(),
{
    let line = |l: Seq<char>| encode_utf8(l + "\n"@);
    if lines.len() == 0 {
        assert(framed_lines(lines.map_values(line)) =~= Seq::empty());
    } else {
        lemma_framed_texts(lines.drop_last());
        lemma_framed_push(lines.drop_last().map_values(line), line(lines.last()));
        assert(lines.drop_last().map_values(line).push(line(lines.last())) =~= lines.map_values(
            line,
        ));
    }
}

/// A client reads a report back: its lines, each with a line feed, and nothing behind them.
pub proof fn report_reads_back(lines: Seq<Seq<char>>)
    requires
        forall|i: int|
            0 <= i < lines.len() ==> encode_utf8(#[trigger] lines[i] + "\n"@).len() + 4 < 0x1_0000,
    ensures
        read_lines(framed_texts(lines) + flush_bytes()) == (
            lines.map_values(|l: Seq<char>| encode_utf8(l + "\n"@)),
            Seq::<u8>::empty(),
        ),
{
    let all = lines.map_values(|l: Seq<char>| encode_utf8(l + "\n"@));
    lemma_framed_texts(lines);
    assert forall|i: int| 0 <= i < all.len() implies (#[trigger] all[i]).len() + 4 < 0x1_0000 by {
        assert(encode_utf8(lines[i] + "\n"@).len() + 4 < 0x1_0000);
    }
    framed_lines_read_back(all, Seq::empty());
    assert(framed_lines(all) + flush_bytes() + Seq::<u8>::empty() =~= framed_lines(all)
        + flush_bytes());
}

/// The body of a report.
pub fn make_receive_pack_response(status_lines: &Vec<String>) -> (r: Vec<u8>)
    ensures
        r@ == framed_texts(text_views(status_lines@)) + flush_bytes(),
{
    let ghost all = text_views(status_lines@);
    let mut body: Vec<u8> = Vec::new();
    let mut i: usize = 0;
    assert(all.take(0) =~= Seq::empty());
    while i < status_lines.len()
        invariant
            i <= status_lines.len(),
            all == text_views(status_lines@),
            body@ == framed_texts(all.take(i as int)),
        decreases status_lines.len() - i,
    {
        let mut line = status_lines[i].clone();
        line.append("\n");
        push_line(&mut body, line.as_str());
        assert(all.take(i + 1).drop_last() =~= all.take(i as int));
        assert(all.take(i + 1).last() == status_lines@[i as int]@);
        i += 1;
    }
    assert(all.take(i as int) =~= all);
    push_flush(&mut body);
    body
}

/// The names of the refs that updates change.
pub open spec fn update_names(updates: Seq<RefUpdate>) -> Seq<Seq<char>> {
    updates.map_values(|u: RefUpdate| u.name@)
}

/// Reports what became of a push.
pub fn receive_pack_body(reply: PushReply, updates: &Vec<RefUpdate>) -> (r: Vec<u8>)
    ensures
        r@ == framed_texts(report_lines(reply, update_names(updates@))) + flush_bytes(),
{
    let mut lines: Vec<String> = Vec::new();
    match &reply {
        PushReply::Accepted => {
            lines.push("unpack ok".to_owned());
            let mut i: usize = 0;
            while i < updates.len()
                invariant
                    i <= updates.len(),
                    lines@.len() == i + 1,
                    lines@[0]@ == "unpack ok"@,
                    forall|k: int| 0 <= k < i ==> (#[trigger] lines@[k + 1])@ == "ok "@ + updates@[k].name@,
                decreases updates.len() - i,
            {
                let mut line = "ok ".to_owned();
                line.append(updates[i].name.as_str());
                let ghost sofar = lines@;
                lines.push(line);
                assert forall|k: int| 0 <= k < i + 1 implies (#[trigger] lines@[k + 1])@ == "ok "@
                    + updates@[k].name@ by {
                    if k < i {
                        assert(lines@[k + 1] == sofar[k + 1]);
                    }
                }
                i += 1;
            }
            assert forall|k: int| 0 < k < lines@.len() implies (#[trigger] lines@[k])@ == "ok "@
                + updates@[k - 1].name@ by {
                let j = k - 1;
                assert(lines@[j + 1]@ == "ok "@ + updates@[j].name@);
            }
        },
        PushReply::Refused(why) => {
            let mut line = "ng unpack ".to_owned();
            line.append(why.as_str());
            lines.push(line);
        },
        PushReply::Unreachable => {
            lines.push("ng unpack contract call failed".to_owned());
        },
    }
    assert(text_views(lines@) =~= report_lines(reply, update_names(updates@)));
    make_receive_pack_response(&lines)
}

/// The name that a text asks for behind a word: if it starts with that, what comes next up to
/// white space, if something does.
pub open spec fn asked_name(text: Seq<char>, prefix: Seq<char>) -> Option<Seq<char>> {
    let name = word_at(trimmed(text).skip(prefix.len() as int), 0);
    if starts_with(trimmed(text), prefix) && name.len() > 0 {
        Some(name)
    } else {
        None
    }
}

/// The names that lines ask for behind a word.
pub open spec fn asked(lines: Seq<Seq<u8>>, prefix: Seq<char>) -> Seq<Seq<char>>
    decreases lines.len(),
{
    if lines.len() == 0 {
        Seq::empty()
    } else {
        let sofar = asked(lines.drop_last(), prefix);
        match asked_name(lossy_text(lines.last()), prefix) {
            Some(name) => sofar.push(name),
            None => sofar,
        }
    }
}

/// A line asks for a name behind a word: that which comes next, up to white space. The names are
/// found in the order of the lines.
pub proof fn names_are_asked_in_turn(
    lines: Seq<Seq<u8>>,
    line: Seq<u8>,
    prefix: Seq<char>,
    name: Seq<char>,
    rest: Seq<char>,
)
    requires
        name.len() > 0,
        forall|i: int| 0 <= i < name.len() ==> !is_space(#[trigger] name[i]),
        rest.len() > 0 ==> is_space(rest[0]),
        trimmed(lossy_text(line)) == prefix + name + rest,
    ensures
        asked(lines.push(line), prefix) == asked(lines, prefix).push(name),
{
    let text = prefix + name + rest;
    assert(lines.push(line).drop_last() =~= lines);
    assert(text.take(prefix.len() as int) =~= prefix);
    assert(text.skip(prefix.len() as int) =~= Seq::<char>::empty() + name + rest);
    words_are_separated(Seq::empty(), name, rest, 0);
}

/// A line that does not start with the word, or has nothing behind it, asks for no name.
pub proof fn other_lines_ask_for_no_name(lines: Seq<Seq<u8>>, line: Seq<u8>, prefix: Seq<char>)
    requires
        trimmed(lossy_text(line)) == prefix || forall|t: Seq<char>|
            trimmed(lossy_text(line)) != #[trigger] (prefix + t),
    ensures
        asked(lines.push(line), prefix) == asked(lines, prefix),
        asked(Seq::empty(), prefix) == Seq::<Seq<char>>::empty(),
{
    let text = trimmed(lossy_text(line));
    assert(lines.push(line).drop_last() =~= lines);
    if starts_with(text, prefix) {
        assert(text =~= prefix + text.skip(prefix.len() as int));
        assert(text.skip(prefix.len() as int) =~= Seq::empty());
        white_space_has_no_words(Seq::empty(), 0);
    }
}

/// The last bytes of a request, in which some clients say what they have.
pub open spec fn request_tail(body: Seq<u8>) -> Seq<u8> {
    if body.len() > 8 {
        body.skip(body.len() - 8)
    } else {
        body
    }
}

/// The last bytes of a request are its last eight, or all of it where there are fewer.
pub proof fn tail_is_the_last_eight(front: Seq<u8>, tail: Seq<u8>)
    ensures
        tail.len() == 8 ==> request_tail(front + tail) == tail,
        tail.len() <= 8 ==> request_tail(tail) == tail,
{
    if tail.len() == 8 {
        assert((front + tail).skip(front.len() as int) =~= tail);
        if front.len() == 0 {
            assert(front + tail =~= tail);
        }
    }
}

/// The name that a line asks for behind a word.
pub fn parse_asked(line: &str, prefix: &str) -> (r: Option<String>)
    ensures
        text_of(r) == asked_name(line@, prefix@),
{
    let chars = chars_of(line);
    let text = trim(&chars);
    if !has_prefix(text, prefix) {
        return None;
    }
    let n: usize = prefix.unicode_len();
    let rest = &text[n..text.len()];
    assert(rest@ =~= text@.skip(prefix@.len() as int));
    let name = word(rest, 0);
    if name.len() > 0 {
        Some(text_from(name))
    } else {
        None
    }
}

fn read_asked(lines: &Vec<Vec<u8>>, prefix: &str) -> (r: Vec<String>)
    ensures
        text_views(r@) == asked(line_views(lines@), prefix@),
{
    let ghost all = line_views(lines@);
    let mut names: Vec<String> = Vec::new();
    let mut i: usize = 0;
    assert(all.take(0) =~= Seq::empty());
    assert(text_views(names@) =~= Seq::empty());
    while i < lines.len()
        invariant
            i <= lines.len(),
            all == line_views(lines@),
            text_views(names@) == asked(all.take(i as int), prefix@),
        decreases lines.len() - i,
    {
        let ghost sofar = text_views(names@);
        assert(all.take(i + 1).drop_last() =~= all.take(i as int));
        assert(all.take(i + 1).last() == lines@[i as int]@);
        if let Some(name) = parse_asked(lossy(&lines[i]).as_str(), prefix) {
            let ghost view = name@;
            names.push(name);
            assert(text_views(names@) =~= sofar.push(view));
        }
        i += 1;
    }
    assert(all.take(i as int) =~= all);
    names
}

/// Reads the body of a fetch: the objects that are wanted, and those that the client has.
pub fn read_fetch(body: &[u8]) -> (r: (Vec<String>, Vec<String>))
    ensures
        text_views(r.0@) == asked(read_lines(body@).0, "want "@),
        text_views(r.1@) == asked(read_lines(body@).0, "have "@) + asked(
            read_lines(request_tail(body@)).0,
            "have "@,
        ),
{
    let (lines, _) = read_until_flush(body);
    let wants = read_asked(&lines, "want ");
    let mut haves = read_asked(&lines, "have ");
    let ghost first = text_views(haves@);
    let start: usize = if body.len() > 8 { body.len() - 8 } else { 0 };
    let tail = &body[start..body.len()];
    assert(tail@ =~= request_tail(body@));
    let (more_lines, _) = read_until_flush(tail);
    let more = read_asked(&more_lines, "have ");
    let mut i: usize = 0;
    assert(first + text_views(more@).take(0) =~= first);
    while i < more.len()
        invariant
            i <= more.len(),
            text_views(haves@) == first + text_views(more@).take(i as int),
        decreases more.len() - i,
    {
        let ghost sofar = text_views(haves@);
        haves.push(more[i].clone());
        assert(text_views(haves@) =~= sofar.push(more@[i as int]@));
        assert(text_views(more@).take(i + 1) =~= text_views(more@).take(i as int).push(
            more@[i as int]@,
        ));
        assert(first + text_views(more@).take(i + 1) =~= sofar.push(more@[i as int]@));
        i += 1;
    }
    assert(text_views(more@).take(i as int) =~= text_views(more@));
    (wants, haves)
}

/// The answer to a fetch that wants nothing.
pub fn nothing_wanted_body() -> (r: Vec<u8>)
    ensures
        r@ == framed_text("NAK\n"@) + flush_bytes(),
{
    let mut body: Vec<u8> = Vec::new();
    push_line(&mut body, "NAK\n");
    push_flush(&mut body);
    assert(body@ =~= framed_text("NAK\n"@) + flush_bytes());
    body
}

/// The answer to a fetch that can be given at once, which is one that wants nothing; `None` when
/// the packs of the contract are needed.
pub fn fetch_step(body: &[u8]) -> (r: Option<Vec<u8>>)
    ensures
        if asked(read_lines(body@).0, "want "@).len() == 0 {
            r matches Some(reply) && reply@ == framed_text("NAK\n"@) + flush_bytes()
        } else {
            r is None
        },
{
    let (wants, _) = read_fetch(body);
    if wants.len() == 0 {
        Some(nothing_wanted_body())
    } else {
        None
    }
}

/// The answer to a fetch: one pack of all objects of the packs that the contract has. `None`
/// when one of these breaks off.
pub fn upload_pack_body(packs: &Vec<Vec<u8>>) -> (r: Option<Vec<u8>>)
    ensures
        match merged(Seq::empty(), pack_views(packs@)) {
            Outcome::Done(objects) => {
                &&& r matches Some(body)
                &&& body@ == framed_text("NAK\n"@) + pack_bytes(in_pack_order(objects), Seq::empty())
                &&& objects.len() <= u32::MAX && within_offsets(objects) ==> parse_outcome(
                    pack_bytes(in_pack_order(objects), Seq::empty()),
                ) == Outcome::Done(
                    PackView { objects: in_pack_order(objects), deltas: Seq::empty() },
                )
            },
            _ => r is None,
        },
{
    let objects = match merge_packs(packs) {
        None => {
            return None;
        },
        Some(objects) => objects,
    };
    proof {
        merging_keeps_objects(Seq::empty(), pack_views(packs@));
    }
    let pack = build(&objects);
    let mut body: Vec<u8> = Vec::new();
    push_line(&mut body, "NAK\n");
    push_bytes(&mut body, &pack);
    assert(body@ =~= framed_text("NAK\n"@) + pack@);
    Some(body)
}

/// A pack that was read, or why it was not, as JSON.
pub open spec fn parse_json(parsed: Result<PackView, Seq<char>>) -> Seq<char> {
    match parsed {
        Ok(p) => json_text(pack_json(p)),
        Err(m) => json_text(JsonView::Record(seq![("error"@, JsonView::Text(m))])),
    }
}

/// A pack that was read is answered with what it holds, and one that was not with the reason.
pub proof fn parse_is_answered(p: PackView, message: Seq<char>)
    ensures
        parse_json(Ok(p)) == json_text(pack_json(p)),
        parse_json(Err(message)) == json_text(
            JsonView::Record(seq![("error"@, JsonView::Text(message))]),
        ),
{
}

fn write_error(message: &str) -> (r: String)
    ensures
        r@ == json_text(JsonView::Record(seq![("error"@, JsonView::Text(message@))])),
{
    let fields = vec![text_field("error", message)];
    proof {
        reveal_strlit("error");
        field_views_index(fields@);
        ascending_keys_are_plain(field_views(fields@));
        assert(field_views(fields@) =~= seq![("error"@, JsonView::Text(message@))]);
    }
    write_json(&Json::Record(fields))
}

/// What became of reading a pack, as JSON.
pub fn parse_reply(parsed: &Result<ParseResult, String>) -> (r: String)
    ensures
        match *parsed {
            Ok(pack) => r@ == parse_json(Ok(pack@)),
            Err(e) => r@ == parse_json(Err(e@)),
        },
{
    match parsed {
        Ok(pack) => describe_pack(pack),
        Err(e) => write_error(e.as_str()),
    }
}

/// Reads a pack and gives what it holds, or why it is refused, as JSON; `None` when it breaks
/// off inside a delta or refers to itself.
pub fn parse_packfile_body(body: &[u8]) -> (r: Option<String>)
    ensures
        match parse_outcome(body@) {
            Outcome::Done(p) => r matches Some(s) && s@ == parse_json(Ok(p)),
            Outcome::Failed(m) => r matches Some(s) && s@ == parse_json(Err(m)),
            Outcome::Broken => r is None,
        },
{
    match run_parse(body) {
        None => None,
        Some(parsed) => Some(parse_reply(&parsed)),
    }
}

/// Where the contract can be reached, as JSON.
pub fn near_info_body(rpc_url: &str, contract_id: &str) -> (r: String)
    ensures
        r@ == json_text(
            JsonView::Record(
                seq![
                    ("contractId"@, JsonView::Text(contract_id@)),
                    ("rpcUrl"@, JsonView::Text(rpc_url@)),
                ],
            ),
        ),
{
    let fields = vec![text_field("contractId", contract_id), text_field("rpcUrl", rpc_url)];
    proof {
        reveal_strlit("contractId");
        reveal_strlit("rpcUrl");
        field_views_index(fields@);
        ascending_keys_are_plain(field_views(fields@));
        assert(field_views(fields@) =~= seq![
            ("contractId"@, JsonView::Text(contract_id@)),
            ("rpcUrl"@, JsonView::Text(rpc_url@)),
        ]);
    }
    write_json(&Json::Record(fields))
}

/// Where the contract can be reached, and its owner's account and keys, as JSON.
pub fn near_credentials_body(
    rpc_url: &str,
    contract_id: &str,
    account_id: &str,
    public_key: &str,
    secret_key: &str,
) -> (r: String)
    ensures
        r@ == json_text(
            JsonView::Record(
                seq![
                    ("accountId"@, JsonView::Text(account_id@)),
                    ("contractId"@, JsonView::Text(contract_id@)),
                    ("publicKey"@, JsonView::Text(public_key@)),
                    ("rpcUrl"@, JsonView::Text(rpc_url@)),
                    ("secretKey"@, JsonView::Text(secret_key@)),
                ],
            ),
        ),
{
    let fields = vec![
        text_field("accountId", account_id),
        text_field("contractId", contract_id),
        text_field("publicKey", public_key),
        text_field("rpcUrl", rpc_url),
        text_field("secretKey", secret_key),
    ];
    proof {
        reveal_strlit("accountId");
        reveal_strlit("contractId");
        reveal_strlit("publicKey");
        reveal_strlit("rpcUrl");
        reveal_strlit("secretKey");
        field_views_index(fields@);
        ascending_keys_are_plain(field_views(fields@));
        assert(field_views(fields@) =~= seq![
            ("accountId"@, JsonView::Text(account_id@)),
            ("contractId"@, JsonView::Text(contract_id@)),
            ("publicKey"@, JsonView::Text(public_key@)),
            ("rpcUrl"@, JsonView::Text(rpc_url@)),
            ("secretKey"@, JsonView::Text(secret_key@)),
        ]);
    }
    write_json(&Json::Record(fields))
}

/// A call that a client asks the server to make in the owner's name.
pub enum NearCall {
    /// The request is no JSON, for this reason.
    Malformed(String),
    /// A push of this pack with these ref updates.
    Push(Vec<u8>, Vec<RefUpdate>),
    /// A call of another method.
    Other(String),
}

/// The model of a call.
#[verifier::ext_equal]
pub enum CallView {
    /// The request is no JSON.
    Malformed(Seq<char>),
    /// A push.
    Push(Seq<u8>, Seq<UpdateView>),
    /// A call of another method.
    Other(Seq<char>),
}

impl View for NearCall {
    type V = CallView;

    open spec fn view(&self) -> CallView {
        match *self {
            NearCall::Malformed(m) => CallView::Malformed(m@),
            NearCall::Push(pack, updates) => CallView::Push(pack@, update_views(updates@)),
            NearCall::Other(method) => CallView::Other(method@),
        }
    }
}

/// A text, empty where there is none.
pub open spec fn text_or_empty(s: Option<Seq<char>>) -> Seq<char> {
    match s {
        Some(t) => t,
        None => Seq::empty(),
    }
}

/// The update of a ref that a JSON value stands for.
pub open spec fn update_from(v: JsonView) -> UpdateView {
    UpdateView {
        name: text_or_empty(text_at(v, "name"@)),
        old: text_at(v, "old_sha"@),
        new: text_or_empty(text_at(v, "new_sha"@)),
    }
}

/// The updates that a JSON array stands for, none where there is no array.
pub open spec fn updates_from(v: JsonView) -> Seq<UpdateView> {
    match v {
        JsonView::List(items) => items.map_values(|item: JsonView| update_from(item)),
        _ => Seq::empty(),
    }
}

/// The call that a request asks for. The pack of a push is in base64, and empty where it is not.
pub open spec fn call_of(request: JsonView) -> CallView {
    let method = text_or_empty(text_at(request, "method"@));
    let args = value_at(request, "args"@);
    if method == "push"@ {
        CallView::Push(
            base64_bytes(text_or_empty(text_at(args, "pack_data"@))),
            updates_from(value_at(args, "ref_updates"@)),
        )
    } else {
        CallView::Other(method)
    }
}

/// An update of a ref as a client writes it.
pub open spec fn update_json(u: UpdateView) -> JsonView {
    JsonView::Record(
        seq![
            ("name"@, JsonView::Text(u.name)),
            (
                "old_sha"@,
                match u.old {
                    Some(old) => JsonView::Text(old),
                    None => JsonView::Null,
                },
            ),
            ("new_sha"@, JsonView::Text(u.new)),
        ],
    )
}

/// A request for a push as a client writes it.
pub open spec fn push_json(pack: Seq<u8>, updates: Seq<UpdateView>) -> JsonView {
    JsonView::Record(
        seq![
            ("method"@, JsonView::Text("push"@)),
            (
                "args"@,
                JsonView::Record(
                    seq![
                        ("pack_data"@, JsonView::Text(base64_text(pack))),
                        (
                            "ref_updates"@,
                            JsonView::List(updates.map_values(|u: UpdateView| update_json(u))),
                        ),
                    ],
                ),
            ),
        ],
    )
}

proof fn lemma_update_json(u: UpdateView)
    ensures
        update_from(update_json(u)) == u,
{
    reveal_strlit("name");
    reveal_strlit("old_sha");
    reveal_strlit("new_sha");
    assert("name"@.len() == 4 && "old_sha"@.len() == 7 && "new_sha"@.len() == 7);
    assert("old_sha"@[0] != "new_sha"@[0]);
    let fields = update_json(u)->Record_0;
    field_is_found(fields, 0);
    field_is_found(fields, 1);
    field_is_found(fields, 2);
    assert(update_from(update_json(u)) =~= u);
}

/// A request for a push is read as that: the pack that it has in base64, and all its updates in
/// their order.
pub proof fn push_request_reads_back(pack: Seq<u8>, updates: Seq<UpdateView>)
    ensures
        call_of(push_json(pack, updates)) == CallView::Push(pack, updates),
{
    reveal_strlit("method");
    reveal_strlit("args");
    reveal_strlit("pack_data");
    reveal_strlit("ref_updates");
    assert("method"@.len() != "args"@.len() && "pack_data"@.len() != "ref_updates"@.len());
    let request = push_json(pack, updates);
    let args = request->Record_0[1].1;
    field_is_found(request->Record_0, 0);
    field_is_found(request->Record_0, 1);
    field_is_found(args->Record_0, 0);
    field_is_found(args->Record_0, 1);
    base64_reads_back(pack);
    let items = updates.map_values(|u: UpdateView| update_json(u));
    assert forall|i: int| 0 <= i < updates.len() implies update_from(#[trigger] items[i])
        == updates[i] by {
        lemma_update_json(updates[i]);
    }
    assert(updates_from(JsonView::List(items)) =~= updates);
}

/// What a request leaves out is empty: the method, the pack and the updates of a push, and the
/// names of an update; an update that leaves out what its ref points to creates the ref.
pub proof fn missing_parts_are_empty(request: JsonView, update: JsonView)
    ensures
        text_at(request, "method"@) is None ==> call_of(request) == CallView::Other(Seq::empty()),
        text_at(request, "method"@) == Some("push"@) && text_at(
            value_at(request, "args"@),
            "pack_data"@,
        ) is None && !(value_at(value_at(request, "args"@), "ref_updates"@) is List) ==> call_of(
            request,
        ) == CallView::Push(Seq::empty(), Seq::empty()),
        text_at(update, "name"@) is None ==> update_from(update).name == Seq::<char>::empty(),
        text_at(update, "new_sha"@) is None ==> update_from(update).new == Seq::<char>::empty(),
        text_at(update, "old_sha"@) is None ==> update_from(update).old is None,
{
    reveal_strlit("push");
    assert("push"@.len() == 4);
    base64_reads_back(Seq::empty());
    assert(base64_text(Seq::empty()) =~= Seq::empty());
}

/// A request for another method is read as a call of that.
pub proof fn other_request_reads_back(request: JsonView, method: Seq<char>)
    requires
        text_at(request, "method"@) == Some(method),
        method != "push"@,
    ensures
        call_of(request) == CallView::Other(method),
{
}

fn own_or_empty(s: Option<String>) -> (r: String)
    ensures
        r@ == text_or_empty(text_of(s)),
{
    match s {
        Some(t) => t,
        None => String::new(),
    }
}

fn updates_of(items: &Vec<Json>) -> (r: Vec<RefUpdate>)
    ensures
        update_views(r@) == updates_from(JsonView::List(json_views(items@))),
{
    let mut updates: Vec<RefUpdate> = Vec::new();
    let mut i: usize = 0;
    while i < items.len()
        invariant
            i <= items.len(),
            updates@.len() == i,
            forall|k: int| 0 <= k < i ==> (#[trigger] updates@[k])@ == update_from(items@[k]@),
        decreases items.len() - i,
    {
        let u = RefUpdate {
            name: own_or_empty(get_text(&items[i], "name")),
            old_sha: get_text(&items[i], "old_sha"),
            new_sha: own_or_empty(get_text(&items[i], "new_sha")),
        };
        assert(u@ =~= update_from(items@[i as int]@));
        updates.push(u);
        i += 1;
    }
    proof {
        json_views_index(items@);
        assert(update_views(updates@) =~= updates_from(JsonView::List(json_views(items@))));
    }
    updates
}

/// The call that a request asks for.
pub fn interpret_call(request: &Json) -> (r: NearCall)
    ensures
        r@ == call_of(request@),
{
    let method = own_or_empty(get_text(request, "method"));
    if !same_text(method.as_str(), "push") {
        return NearCall::Other(method);
    }
    let none = Json::Null;
    let args = match get(request, "args") {
        Some(args) => args,
        None => &none,
    };
    let pack = decode_base64(own_or_empty(get_text(args, "pack_data")).as_str());
    let updates = match get(args, "ref_updates") {
        Some(Json::List(items)) => updates_of(items),
        _ => Vec::new(),
    };
    let call = NearCall::Push(pack, updates);
    assert(call@ =~= call_of(request@));
    call
}

/// Reads a request to make a call.
pub fn read_near_call(body: &[u8]) -> (r: NearCall)
    ensures
        match json_read(body@) {
            Ok(request) => r@ == call_of(request),
            Err(m) => r@ == CallView::Malformed(m),
        },
{
    match read_json(body) {
        Err(e) => NearCall::Malformed(e),
        Ok(request) => interpret_call(&request),
    }
}

/// What became of a push that the server made, as JSON: whether the contract took it, and the
/// hash of the transaction.
pub fn push_call_body(taken: bool, tx_hash: &str) -> (r: String)
    ensures
        r@ == json_text(
            if taken {
                JsonView::Record(
                    seq![
                        ("success"@, JsonView::Bool(true)),
                        ("txHash"@, JsonView::Text(tx_hash@)),
                    ],
                )
            } else {
                failure_json("push failed"@, tx_hash@)
            },
        ),
{
    if !taken {
        return call_failure_body("push failed", tx_hash);
    }
    let fields = vec![("success".to_owned(), Json::Bool(true)), text_field("txHash", tx_hash)];
    proof {
        reveal_strlit("success");
        reveal_strlit("txHash");
        field_views_index(fields@);
        ascending_keys_are_plain(field_views(fields@));
        assert(field_views(fields@) =~= seq![
            ("success"@, JsonView::Bool(true)),
            ("txHash"@, JsonView::Text(tx_hash@)),
        ]);
    }
    write_json(&Json::Record(fields))
}

/// A call that the contract refused, as JSON.
pub open spec fn failure_json(message: Seq<char>, tx_hash: Seq<char>) -> JsonView {
    JsonView::Record(
        seq![
            ("error"@, JsonView::Text(message)),
            ("success"@, JsonView::Bool(false)),
            ("txHash"@, JsonView::Text(tx_hash)),
        ],
    )
}

/// A call that the contract refused is answered with that, the reason and the hash.
pub proof fn failure_tells_reason_and_hash(message: Seq<char>, tx_hash: Seq<char>)
    ensures
        text_at(failure_json(message, tx_hash), "error"@) == Some(message),
        value_at(failure_json(message, tx_hash), "success"@) == JsonView::Bool(false),
        text_at(failure_json(message, tx_hash), "txHash"@) == Some(tx_hash),
        failure_json(message, tx_hash)->Record_0.len() == 3,
{
    reveal_strlit("error");
    reveal_strlit("success");
    reveal_strlit("txHash");
    assert("error"@.len() == 5 && "success"@.len() == 7 && "txHash"@.len() == 6);
    let fields = failure_json(message, tx_hash)->Record_0;
    field_is_found(fields, 0);
    field_is_found(fields, 1);
    field_is_found(fields, 2);
}

/// A call that the contract refused, as JSON: why, and the hash of the transaction.
pub fn call_failure_body(message: &str, tx_hash: &str) -> (r: String)
    ensures
        r@ == json_text(failure_json(message@, tx_hash@)),
{
    let fields = vec![
        text_field("error", message),
        ("success".to_owned(), Json::Bool(false)),
        text_field("txHash", tx_hash),
    ];
    proof {
        reveal_strlit("error");
        reveal_strlit("success");
        reveal_strlit("txHash");
        field_views_index(fields@);
        ascending_keys_are_plain(field_views(fields@));
        assert(field_views(fields@) =~= failure_json(message@, tx_hash@)->Record_0);
    }
    write_json(&Json::Record(fields))
}

/// A call that could not be made, as JSON.
pub fn call_error_body(message: &str) -> (r: String)
    ensures
        r@ == json_text(
            JsonView::Record(
                seq![
                    ("error"@, JsonView::Text(message@)),
                    ("success"@, JsonView::Bool(false)),
                ],
            ),
        ),
{
    let fields = vec![text_field("error", message), ("success".to_owned(), Json::Bool(false))];
    proof {
        reveal_strlit("error");
        reveal_strlit("success");
        field_views_index(fields@);
        ascending_keys_are_plain(field_views(fields@));
        assert(field_views(fields@) =~= seq![
            ("error"@, JsonView::Text(message@)),
            ("success"@, JsonView::Bool(false)),
        ]);
    }
    write_json(&Json::Record(fields))
}

/// The hash by which the code of a contract is deployed, in hexadecimal.
pub fn code_hash(wasm: &[u8]) -> (r: String)
    ensures
        r@ == hex_text(sha256_of(wasm@)),
{
    to_hex(&sha256_digest(wasm))
}

} // verus!
