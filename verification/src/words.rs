//! Words, white space and prefixes in texts.

use vstd::prelude::*;
use vstd::string::*;
use vstd::utf8::{decode_utf8, encode_utf8, valid_utf8};

verus! {

/// A character that separates words: one with the White_Space property of Unicode.
pub open spec fn is_space(c: char) -> bool {
    ||| '\u{9}' <= c <= '\u{d}'
    ||| c == ' '
    ||| c == '\u{85}'
    ||| c == '\u{a0}'
    ||| c == '\u{1680}'
    ||| '\u{2000}' <= c <= '\u{200a}'
    ||| c == '\u{2028}'
    ||| c == '\u{2029}'
    ||| c == '\u{202f}'
    ||| c == '\u{205f}'
    ||| c == '\u{3000}'
}

/// A text without the white space that it starts with.
pub open spec fn trimmed_start(s: Seq<char>) -> Seq<char>
    decreases s.len(),
{
    if s.len() > 0 && is_space(s[0]) {
        trimmed_start(s.drop_first())
    } else {
        s
    }
}

/// A text without the white space that it ends with.
pub open spec fn trimmed_end(s: Seq<char>) -> Seq<char>
    decreases s.len(),
{
    if s.len() > 0 && is_space(s.last()) {
        trimmed_end(s.drop_last())
    } else {
        s
    }
}

/// A text without the white space around it.
pub open spec fn trimmed(s: Seq<char>) -> Seq<char> {
    trimmed_end(trimmed_start(s))
}

/// A text without the line feeds that it ends with.
pub open spec fn without_newlines(s: Seq<char>) -> Seq<char>
    decreases s.len(),
{
    if s.len() > 0 && s.last() == '\n' {
        without_newlines(s.drop_last())
    } else {
        s
    }
}

/// How many characters of a text come before its first white space.
pub open spec fn word_len(s: Seq<char>) -> nat
    decreases s.len(),
{
    if s.len() == 0 || is_space(s[0]) {
        0
    } else {
        1 + word_len(s.drop_first())
    }
}

/// The word at `k` of a text, its words being what white space separates; empty when there are
/// not as many.
pub open spec fn word_at(s: Seq<char>, k: nat) -> Seq<char>
    decreases k,
{
    let rest = trimmed_start(s);
    let n = word_len(rest);
    if k == 0 {
        rest.take(n as int)
    } else {
        word_at(rest.skip(n as int), (k - 1) as nat)
    }
}

/// Where a character first occurs in a text; the length of the text when it does not.
pub open spec fn position(s: Seq<char>, c: char) -> nat
    decreases s.len(),
{
    if s.len() == 0 || s[0] == c {
        0
    } else {
        1 + position(s.drop_first(), c)
    }
}

/// A text up to the first occurrence of a character.
pub open spec fn before(s: Seq<char>, c: char) -> Seq<char> {
    s.take(position(s, c) as int)
}

/// A text behind the first occurrence of a character.
pub open spec fn behind(s: Seq<char>, c: char) -> Seq<char> {
    s.skip(position(s, c) as int + 1)
}

/// Whether a text starts with another.
pub open spec fn starts_with(s: Seq<char>, prefix: Seq<char>) -> bool {
    prefix.len() <= s.len() && s.take(prefix.len() as int) == prefix
}

/// A text without the prefix that it may start with.
pub open spec fn without_prefix(s: Seq<char>, prefix: Seq<char>) -> Seq<char> {
    if starts_with(s, prefix) {
        s.skip(prefix.len() as int)
    } else {
        s
    }
}

/// Where a character first occurs is within the text, and if it is not at the end, the
/// character is there.
pub proof fn position_is_first(s: Seq<char>, c: char)
    ensures
        position(s, c) <= s.len(),
        position(s, c) < s.len() ==> s[position(s, c) as int] == c,
        position(s, c) < s.len() <==> s.contains(c),
        forall|i: int| 0 <= i < position(s, c) ==> #[trigger] s[i] != c,
    decreases s.len(),
{
    if s.len() > 0 && s[0] != c {
        let rest = s.drop_first();
        position_is_first(rest, c);
        assert forall|i: int| 0 <= i < position(s, c) implies #[trigger] s[i] != c by {
            if i > 0 {
                assert(rest[i - 1] == s[i]);
            }
        }
        if s.contains(c) {
            let i = choose|i: int| 0 <= i < s.len() && s[i] == c;
            assert(rest[i - 1] == c);
        }
    }
}

/// A character that a text does not hold is first found where it comes behind the text.
pub proof fn position_behind(s: Seq<char>, c: char, rest: Seq<char>)
    requires
        !s.contains(c),
        rest.len() > 0 ==> rest[0] == c,
    ensures
        position(s + rest, c) == s.len(),
    decreases s.len(),
{
    if s.len() == 0 {
        assert(s + rest =~= rest);
    } else {
        assert(s.contains(s[0]));
        assert forall|x: char| s.drop_first().contains(x) implies s.contains(x) by {
            let i = choose|i: int| 0 <= i < s.drop_first().len() && s.drop_first()[i] == x;
            assert(s[i + 1] == x);
        }
        position_behind(s.drop_first(), c, rest);
        assert((s + rest).drop_first() =~= s.drop_first() + rest);
    }
}

proof fn lemma_trimmed_start(s: Seq<char>)
    ensures
        trimmed_start(s).len() > 0 ==> !is_space(
            trimmed_start(s)[0],
        ),
    decreases s.len(),
{
    if s.len() > 0 {
        lemma_trimmed_start(s.drop_first());
    }
}

proof fn lemma_trimmed_end(s: Seq<char>)
    ensures
        trimmed_end(s).len() <= s.len(),
        trimmed_end(s) == s.take(trimmed_end(s).len() as int),
        trimmed_end(s).len() > 0 ==> !is_space(
            trimmed_end(s).last(),
        ),
    decreases s.len(),
{
    if s.len() > 0 && is_space(s.last()) {
        lemma_trimmed_end(s.drop_last());
        assert(s.drop_last().take(trimmed_end(s).len() as int) =~= s.take(
            trimmed_end(s).len() as int,
        ));
    } else {
        assert(s.take(s.len() as int) =~= s);
    }
}

/// There is nothing left to trim from what was trimmed.
pub proof fn trimmed_is_trimmed(s: Seq<char>)
    ensures
        trimmed(trimmed(s)) == trimmed(s),
{
    let start = trimmed_start(s);
    lemma_trimmed_start(s);
    lemma_trimmed_end(start);
}

proof fn lemma_spaces_first(lead: Seq<char>, t: Seq<char>)
    requires
        forall|i: int| 0 <= i < lead.len() ==> is_space(#[trigger] lead[i]),
        t.len() > 0 ==> !is_space(t[0]),
    ensures
        trimmed_start(lead + t) == t,
    decreases lead.len(),
{
    if lead.len() == 0 {
        assert(lead + t =~= t);
    } else {
        assert(is_space(lead[0]));
        assert forall|i: int| 0 <= i < lead.len() - 1 implies is_space(#[trigger] lead.drop_first()[i]) by {
            assert(is_space(lead[i + 1]));
        }
        lemma_spaces_first(lead.drop_first(), t);
        assert((lead + t).drop_first() =~= lead.drop_first() + t);
    }
}

proof fn lemma_spaces_last(t: Seq<char>, tail: Seq<char>)
    requires
        forall|i: int| 0 <= i < tail.len() ==> is_space(#[trigger] tail[i]),
        t.len() > 0 ==> !is_space(t.last()),
    ensures
        trimmed_end(t + tail) == t,
    decreases tail.len(),
{
    if tail.len() == 0 {
        assert(t + tail =~= t);
    } else {
        assert(is_space(tail[tail.len() - 1]));
        assert forall|i: int| 0 <= i < tail.len() - 1 implies is_space(#[trigger] tail.drop_last()[i]) by {
            assert(is_space(tail[i]));
        }
        lemma_spaces_last(t, tail.drop_last());
        assert((t + tail).drop_last() =~= t + tail.drop_last());
    }
}

/// The white space around a text is trimmed, all of it and nothing else.
pub proof fn white_space_is_trimmed(lead: Seq<char>, t: Seq<char>, tail: Seq<char>)
    requires
        forall|i: int| 0 <= i < lead.len() ==> is_space(#[trigger] lead[i]),
        forall|i: int| 0 <= i < tail.len() ==> is_space(#[trigger] tail[i]),
        t.len() > 0 ==> !is_space(t[0]) && !is_space(t.last()),
    ensures
        trimmed(lead + t + tail) == t,
{
    if t.len() == 0 {
        let all = lead + tail;
        assert(lead + t + tail =~= all + t);
        assert forall|i: int| 0 <= i < all.len() implies is_space(#[trigger] all[i]) by {
            if i < lead.len() {
                assert(is_space(lead[i]));
            } else {
                assert(is_space(tail[i - lead.len()]));
            }
        }
        lemma_spaces_first(all, t);
        assert(t =~= Seq::empty());
    } else {
        assert((t + tail)[0] == t[0]);
        assert(lead + t + tail =~= lead + (t + tail));
        lemma_spaces_first(lead, t + tail);
        lemma_spaces_last(t, tail);
    }
}

/// The line feeds that a text ends with are left out, all of them and nothing else.
pub proof fn newlines_are_left_out(t: Seq<char>, n: nat)
    requires
        t.len() > 0 ==> t.last() != '\n',
    ensures
        without_newlines(t + Seq::new(n, |i: int| '\n')) == t,
    decreases n,
{
    let tail = Seq::new(n, |i: int| '\n');
    if n == 0 {
        assert(t + tail =~= t);
    } else {
        let fewer = Seq::new((n - 1) as nat, |i: int| '\n');
        newlines_are_left_out(t, (n - 1) as nat);
        assert((t + tail).drop_last() =~= t + fewer);
    }
}

proof fn lemma_word_len(w: Seq<char>, rest: Seq<char>)
    requires
        forall|i: int| 0 <= i < w.len() ==> !is_space(#[trigger] w[i]),
        rest.len() > 0 ==> is_space(rest[0]),
    ensures
        word_len(w + rest) == w.len(),
    decreases w.len(),
{
    if w.len() == 0 {
        assert(w + rest =~= rest);
    } else {
        assert(!is_space(w[0]));
        assert forall|i: int| 0 <= i < w.len() - 1 implies !is_space(#[trigger] w.drop_first()[i]) by {
            assert(!is_space(w[i + 1]));
        }
        lemma_word_len(w.drop_first(), rest);
        assert((w + rest).drop_first() =~= w.drop_first() + rest);
    }
}

/// The words of a text are what white space separates: the first is what comes behind the white
/// space that it starts with, up to more of it, and the others are those of the rest.
pub proof fn words_are_separated(lead: Seq<char>, w: Seq<char>, rest: Seq<char>, k: nat)
    requires
        forall|i: int| 0 <= i < lead.len() ==> is_space(#[trigger] lead[i]),
        forall|i: int| 0 <= i < w.len() ==> !is_space(#[trigger] w[i]),
        w.len() > 0,
        rest.len() > 0 ==> is_space(rest[0]),
    ensures
        word_at(lead + w + rest, 0) == w,
        word_at(lead + w + rest, k + 1) == word_at(rest, k),
{
    let text = lead + w + rest;
    assert(!is_space(w[0]));
    assert((w + rest)[0] == w[0]);
    assert(text =~= lead + (w + rest));
    lemma_spaces_first(lead, w + rest);
    lemma_word_len(w, rest);
    assert((w + rest).take(w.len() as int) =~= w);
    assert((w + rest).skip(w.len() as int) =~= rest);
}

/// A text of white space has no words.
pub proof fn white_space_has_no_words(s: Seq<char>, k: nat)
    requires
        forall|i: int| 0 <= i < s.len() ==> is_space(#[trigger] s[i]),
    ensures
        word_at(s, k).len() == 0,
    decreases k,
{
    let none = Seq::<char>::empty();
    lemma_spaces_first(s, none);
    assert(s + none =~= s);
    if k > 0 {
        assert(none.skip(0) =~= none);
        white_space_has_no_words(none, (k - 1) as nat);
    }
}

/// A text is what comes before the first occurrence of a character, the character, and what
/// comes behind it.
pub proof fn text_is_split(front: Seq<char>, c: char, back: Seq<char>)
    requires
        !front.contains(c),
    ensures
        before(front + seq![c] + back, c) == front,
        behind(front + seq![c] + back, c) == back,
        before(front, c) == front,
{
    let s = front + seq![c] + back;
    assert(s =~= front + (seq![c] + back));
    position_behind(front, c, seq![c] + back);
    position_behind(front, c, Seq::empty());
    assert(front + Seq::<char>::empty() =~= front);
    assert(before(s, c) =~= front);
    assert(behind(s, c) =~= back);
    assert(before(front, c) =~= front);
}

/// A prefix is taken off, and what does not start with it is left as it is.
pub proof fn prefix_is_taken_off(prefix: Seq<char>, rest: Seq<char>, other: Seq<char>)
    ensures
        without_prefix(prefix + rest, prefix) == rest,
        (forall|t: Seq<char>| other != #[trigger] (prefix + t)) ==> without_prefix(other, prefix)
            == other,
{
    assert((prefix + rest).take(prefix.len() as int) =~= prefix);
    assert((prefix + rest).skip(prefix.len() as int) =~= rest);
    if starts_with(other, prefix) {
        assert(other =~= prefix + other.skip(prefix.len() as int));
    }
}

/// Whether a character separates words.
pub fn space(c: char) -> (r: bool)
    ensures
        r == is_space(c),
{
    ('\u{9}' <= c && c <= '\u{d}') || c == ' ' || c == '\u{85}' || c == '\u{a0}' || c == '\u{1680}' || (
    '\u{2000}' <= c && c <= '\u{200a}') || c == '\u{2028}' || c == '\u{2029}' || c == '\u{202f}' || c
        == '\u{205f}' || c == '\u{3000}'
}

/// The characters of a text.
pub fn chars_of(s: &str) -> (r: Vec<char>)
    ensures
        r@ == s@,
{
    broadcast use vstd::string::axiom_spec_iter;

    let mut chars: Vec<char> = Vec::new();
    for c in iter: s.chars()
        invariant
            iter.seq() == s@,
            chars@ == s@.take(iter.index() as int),
    {
        chars.push(c);
        assert(chars@ =~= s@.take(iter.index() + 1));
    }
    assert(chars@ =~= s@);
    chars
}

/// The text that a run of characters is.
pub fn text_from(chars: &[char]) -> (r: String)
    ensures
        r@ == chars@,
{
    let mut s = String::new();
    let mut i: usize = 0;
    while i < chars.len()
        invariant
            i <= chars.len(),
            s@ == chars@.take(i as int),
        decreases chars.len() - i,
    {
        s.push(chars[i]);
        i += 1;
        assert(s@ =~= chars@.take(i as int));
    }
    assert(chars@.take(i as int) =~= chars@);
    s
}

/// A part of a run of characters.
fn part(s: &[char], from: usize, to: usize) -> (r: &[char])
    requires
        from <= to <= s.len(),
    ensures
        r@ == s@.subrange(from as int, to as int),
{
    &s[from..to]
}

/// A run of characters without the white space that it starts with.
pub fn trim_start(s: &[char]) -> (r: &[char])
    ensures
        r@ == trimmed_start(s@),
{
    let mut i: usize = 0;
    assert(s@.skip(0) =~= s@);
    while i < s.len() && space(s[i])
        invariant
            i <= s.len(),
            trimmed_start(s@) == trimmed_start(s@.skip(i as int)),
        decreases s.len() - i,
    {
        assert(s@.skip(i as int).drop_first() =~= s@.skip(i + 1));
        i += 1;
    }
    assert(s@.subrange(i as int, s.len() as int) =~= s@.skip(i as int));
    part(s, i, s.len())
}

/// A run of characters without the white space around it.
pub fn trim(s: &[char]) -> (r: &[char])
    ensures
        r@ == trimmed(s@),
{
    let t = trim_start(s);
    let mut n: usize = t.len();
    assert(t@.take(n as int) =~= t@);
    while n > 0 && space(t[n - 1])
        invariant
            n <= t.len(),
            trimmed_end(t@) == trimmed_end(t@.take(n as int)),
        decreases n,
    {
        assert(t@.take(n as int).drop_last() =~= t@.take(n - 1));
        n -= 1;
    }
    assert(t@.subrange(0, n as int) =~= t@.take(n as int));
    part(t, 0, n)
}

/// A run of characters without the line feeds that it ends with.
pub fn trim_newlines(s: &[char]) -> (r: &[char])
    ensures
        r@ == without_newlines(s@),
{
    let mut n: usize = s.len();
    assert(s@.take(n as int) =~= s@);
    while n > 0 && s[n - 1] == '\n'
        invariant
            n <= s.len(),
            without_newlines(s@) == without_newlines(s@.take(n as int)),
        decreases n,
    {
        assert(s@.take(n as int).drop_last() =~= s@.take(n - 1));
        n -= 1;
    }
    assert(s@.subrange(0, n as int) =~= s@.take(n as int));
    part(s, 0, n)
}

fn measure_word(s: &[char]) -> (r: usize)
    ensures
        r == word_len(s@),
        r <= s.len(),
{
    let mut i: usize = 0;
    assert(s@.skip(0) =~= s@);
    while i < s.len() && !space(s[i])
        invariant
            i <= s.len(),
            word_len(s@) == i + word_len(s@.skip(i as int)),
        decreases s.len() - i,
    {
        assert(s@.skip(i as int).drop_first() =~= s@.skip(i + 1));
        i += 1;
    }
    i
}

/// The word at `k`, empty when there are not as many.
pub fn word(s: &[char], k: usize) -> (r: &[char])
    ensures
        r@ == word_at(s@, k as nat),
    decreases k,
{
    let rest = trim_start(s);
    let n: usize = measure_word(rest);
    if k == 0 {
        assert(rest@.subrange(0, n as int) =~= rest@.take(n as int));
        part(rest, 0, n)
    } else {
        assert(rest@.subrange(n as int, rest.len() as int) =~= rest@.skip(n as int));
        word(part(rest, n, rest.len()), k - 1)
    }
}

/// Where a character first occurs.
pub fn find(s: &[char], c: char) -> (r: usize)
    ensures
        r == position(s@, c),
        r <= s.len(),
{
    let mut i: usize = 0;
    assert(s@.skip(0) =~= s@);
    while i < s.len() && s[i] != c
        invariant
            i <= s.len(),
            position(s@, c) == i + position(s@.skip(i as int), c),
        decreases s.len() - i,
    {
        assert(s@.skip(i as int).drop_first() =~= s@.skip(i + 1));
        i += 1;
    }
    i
}

/// A run of characters up to the first occurrence of one.
pub fn up_to(s: &[char], c: char) -> (r: &[char])
    ensures
        r@ == before(s@, c),
{
    let n: usize = find(s, c);
    assert(s@.subrange(0, n as int) =~= s@.take(n as int));
    part(s, 0, n)
}

/// Whether a run of characters is a text.
pub fn is_text(s: &[char], text: &str) -> (r: bool)
    ensures
        r == (s@ == text@),
{
    assert(s@.take(s.len() as int) =~= s@);
    has_prefix(s, text) && s.len() == text.unicode_len()
}

/// Whether a run of characters starts with a text.
pub fn has_prefix(s: &[char], prefix: &str) -> (r: bool)
    ensures
        r == starts_with(s@, prefix@),
{
    let p = chars_of(prefix);
    if p.len() > s.len() {
        return false;
    }
    let mut i: usize = 0;
    while i < p.len()
        invariant
            i <= p.len() <= s.len(),
            p@ == prefix@,
            s@.take(i as int) == p@.take(i as int),
        decreases p.len() - i,
    {
        if s[i] != p[i] {
            assert(s@.take(p.len() as int)[i as int] != prefix@[i as int]);
            return false;
        }
        i += 1;
        assert(s@.take(i as int) =~= p@.take(i as int));
    }
    assert(p@.take(i as int) =~= p@);
    true
}

/// A run of characters without the prefix that it may start with.
pub fn strip_prefix<'a>(s: &'a [char], prefix: &str) -> (r: &'a [char])
    ensures
        r@ == without_prefix(s@, prefix@),
{
    if has_prefix(s, prefix) {
        let n: usize = prefix.unicode_len();
        assert(s@.subrange(n as int, s.len() as int) =~= s@.skip(n as int));
        part(s, n, s.len())
    } else {
        s
    }
}

/// `str::from_utf8` of std: the text that bytes in UTF-8 hold.
#[verifier::external_body]
pub(crate) fn utf8_text(bytes: &[u8]) -> (r: Option<String>)
    ensures
        match r {
            Some(s) => encode_utf8(s@) == bytes@,
            None => !valid_utf8(bytes@),
        },
{
    std::str::from_utf8(bytes).ok().map(String::from)
}

/// Text that some bytes hold, with what is not UTF-8 in them replaced, as
/// `String::from_utf8_lossy` of std has it.
pub uninterp spec fn lossy_text(bytes: Seq<u8>) -> Seq<char>;

/// `String::from_utf8_lossy` of std: bytes that are UTF-8 are taken as they are.
#[verifier::external_body]
pub(crate) fn lossy(bytes: &[u8]) -> (r: String)
    ensures
        r@ == lossy_text(bytes@),
        valid_utf8(bytes@) ==> r@ == decode_utf8(bytes@),
{
    String::from_utf8_lossy(bytes).into_owned()
}

} // verus!
