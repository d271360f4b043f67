//! What the lines of a `pnpm-workspace.yaml` are made of.
use crate::catalogs::{
    after_colon, from_key, is_quoted, key_of, unquote, value_of, without_comment, yaml_entry,
};
use crate::manifest::Entry;
use crate::rewrite_yaml::{lemma_first_mark, lemma_first_mark_unique, mark_at, unmarked};
use crate::text::{
    byte_len, cut, find_text, is_space, lacks, lemma_cut_made, lemma_cut_parts, lemma_span,
    lemma_span_unique, lemma_trim_end, lemma_trim_end_unique, span, trim_end, trim_start, CharClass,
};
use crate::text_laws::{is_blank, is_tight};
use vstd::prelude::*;

verus! {

/// A text with quotes around it or without, and what follows it.
pub struct Quotable {
    pub quote: Option<char>,
    pub text: Seq<char>,
    pub tail: Seq<char>,
}

/// The opening quote, if there is one.
pub open spec fn opening(p: Quotable) -> Seq<char> {
    match p.quote {
        Some(q) => seq![q],
        None => seq![],
    }
}

/// The text with its quotes, and what follows it.
pub open spec fn written(p: Quotable) -> Seq<char> {
    opening(p) + p.text + opening(p) + p.tail
}

/// Whether a key is written as it may be before a colon: between two quotes that are alike
/// and do not occur in it, or plain, with blanks alone behind it.
pub open spec fn sound_key(p: Quotable) -> bool {
    match p.quote {
        Some(q) => (q == '"' || q == '\'') && lacks(p.text, q) && lacks(p.tail, ':'),
        None => {
            &&& lacks(p.text, ':')
            &&& is_blank(p.tail)
            &&& if p.text.len() == 0 {
                p.tail.len() == 0
            } else {
                is_tight(p.text) && p.text[0] != '"' && p.text[0] != '\''
            }
        },
    }
}

/// Whether a text is blank up to a comment or to its end. A comment is a `#` with a blank
/// before it.
pub open spec fn blank_or_comment(tail: Seq<char>) -> bool {
    is_blank(tail) || exists|b: Seq<char>, x: Seq<char>|
        is_blank(b) && tail == #[trigger] commented(b, x)
}

/// A text with a comment behind it.
pub open spec fn commented(b: Seq<char>, x: Seq<char>) -> Seq<char> {
    b + seq![' ', '#'] + x
}

/// Whether a value is written as it may be: between two quotes that are alike and do not
/// occur in it, or plain, with blanks and a comment alone behind it.
pub open spec fn sound_value(p: Quotable) -> bool {
    match p.quote {
        Some(q) => (q == '"' || q == '\'') && lacks(p.text, q),
        None => {
            &&& is_tight(p.text) && p.text[0] != '"' && p.text[0] != '\''
            &&& unmarked(p.text)
            &&& blank_or_comment(p.tail)
        },
    }
}

/// The key of a line stands before its colon, with or without quotes, and what follows the
/// colon stands behind that.
pub proof fn law_yaml_key(k: Quotable, rest: Seq<char>)
    requires
        sound_key(k),
    ensures
        key_of(written(k) + seq![':'] + rest) == Some(k.text),
        after_colon(written(k) + seq![':'] + rest) == Some(rest),
        from_key(written(k) + seq![':'] + rest) == k.text + opening(k) + k.tail + seq![':'] + rest,
{
    let body = written(k) + seq![':'] + rest;
    match k.quote {
        Some(q) => {
            let inner = k.tail + seq![':'] + rest;
            assert(body[0] == q);
            assert(body.skip(1) =~= k.text + seq![q] + inner);
            lemma_cut_made(k.text, q, inner);
            lemma_cut_made(k.tail, ':', rest);
            assert(body.skip(1) =~= k.text + opening(k) + k.tail + seq![':'] + rest);
        },
        None => {
            let before = k.text + k.tail;
            assert(body =~= before + seq![':'] + rest);
            assert(body =~= k.text + opening(k) + k.tail + seq![':'] + rest);
            assert forall|i: int| 0 <= i < before.len() implies #[trigger] before[i] != ':' by {
                if i < k.text.len() {
                    assert(before[i] == k.text[i]);
                } else {
                    assert(is_space(k.tail[i - k.text.len()]));
                }
            }
            lemma_cut_made(before, ':', rest);
            if k.text.len() > 0 {
                assert(body[0] == k.text[0]);
                assert(before[k.text.len() - 1] == k.text.last());
            } else {
                assert(body[0] == ':');
            }
            assert forall|i: int| k.text.len() <= i < before.len() implies is_space(
                #[trigger] before[i],
            ) by {
                assert(before[i] == k.tail[i - k.text.len()]);
            }
            lemma_trim_end_unique(before, k.text.len());
            assert(before.take(k.text.len() as int) =~= k.text);
        },
    }
}

/// A quoted key ends at its closing quote, whatever follows. A line without a colon has no
/// key without quotes, and a quote that does not close opens none.
pub proof fn law_yaml_no_key(text: Seq<char>, q: char, rest: Seq<char>)
    requires
        q == '"' || q == '\'',
        lacks(text, q),
    ensures
        key_of(seq![q] + text + seq![q] + rest) == Some(text),
        key_of(seq![q] + text) is None,
        lacks(rest, ':') && (rest.len() == 0 || rest[0] != '"' && rest[0] != '\'') ==> key_of(rest)
            is None,
{
    let closed = seq![q] + text + seq![q] + rest;
    assert(closed[0] == q);
    assert(closed.skip(1) =~= text + seq![q] + rest);
    lemma_cut_made(text, q, rest);
    let open = seq![q] + text;
    assert(open[0] == q);
    assert(open.skip(1) =~= text);
    if cut(text, q) is Some {
        lemma_cut_parts(text, q);
        let (a, b) = cut(text, q)->0;
        assert(text[a.len() as int] == q);
    }
    if cut(rest, ':') is Some {
        lemma_cut_parts(rest, ':');
        let (a, b) = cut(rest, ':')->0;
        assert(rest[a.len() as int] == ':');
    }
}

/// A plain value ends before the blanks or the comment behind it.
proof fn lemma_plain_value(v: Quotable)
    requires
        v.quote is None,
        sound_value(v),
    ensures
        value_of(v.text + v.tail) == Some((0nat, v.text)),
{
    let s = v.text + v.tail;
    let n = v.text.len();
    assert(s[0] == v.text[0]);
    assert(s[n - 1] == v.text.last());
    if is_blank(v.tail) {
        assert forall|j: int| !#[trigger] mark_at(s, j) by {
            if mark_at(s, j) {
                if j + 1 < n {
                    assert(mark_at(v.text, j));
                } else {
                    assert(s[j + 1] == v.tail[j + 1 - n]);
                }
            }
        }
        lemma_first_mark_unique(s, None);
        assert forall|i: int| n <= i < s.len() implies is_space(#[trigger] s[i]) by {
            assert(s[i] == v.tail[i - n]);
        }
        lemma_trim_end_unique(s, n);
        assert(s.take(n as int) =~= v.text);
    } else {
        let (b, x) = choose|b: Seq<char>, x: Seq<char>|
            is_blank(b) && v.tail == #[trigger] commented(b, x);
        let k = (n + b.len()) as nat;
        assert(s[k as int] == ' ' && s[k as int + 1] == '#');
        assert forall|j: int| j < k implies !#[trigger] mark_at(s, j) by {
            if mark_at(s, j) {
                if j + 1 < n {
                    assert(mark_at(v.text, j));
                } else if j + 1 < k {
                    assert(s[j + 1] == b[j + 1 - n]);
                }
            }
        }
        assert(mark_at(s, k as int));
        lemma_first_mark_unique(s, Some(k));
        let t = s.take(k as int);
        assert(t[n - 1] == v.text.last());
        assert forall|i: int| n <= i < t.len() implies is_space(#[trigger] t[i]) by {
            assert(t[i] == b[i - n]);
        }
        lemma_trim_end_unique(t, n);
        assert(t.take(n as int) =~= v.text);
    }
}

/// What stands behind blanks.
proof fn lemma_behind(lead: Seq<char>, body: Seq<char>)
    requires
        is_blank(lead),
        body.len() > 0 ==> !is_space(body[0]),
    ensures
        trim_start(lead + body) == body,
{
    let s = lead + body;
    assert forall|i: int| 0 <= i < lead.len() implies CharClass::Space.has(#[trigger] s[i]) by {
        assert(s[i] == lead[i]);
    }
    if body.len() > 0 {
        assert(s[lead.len() as int] == body[0]);
    }
    lemma_span_unique(s, CharClass::Space, lead.len());
    assert(s.skip(lead.len() as int) =~= body);
}

/// A line `key: value`.
pub open spec fn yaml_line(
    lead: Seq<char>,
    k: Quotable,
    pad: Seq<char>,
    v: Quotable,
) -> Seq<char> {
    lead + (written(k) + seq![':'] + (pad + written(v)))
}

/// Whether the parts of a line `key: value` are sound: blanks where blanks are due, a key
/// that makes the line no comment and no list item, and a value that is no comment.
pub open spec fn sound_line(lead: Seq<char>, k: Quotable, pad: Seq<char>, v: Quotable) -> bool {
    &&& is_blank(lead)
    &&& sound_key(k)
    &&& k.text.len() > 0 && k.quote is None ==> k.text[0] != '#' && k.text[0] != '-'
    &&& is_blank(pad)
    &&& sound_value(v)
    &&& v.quote is None && v.text[0] == '#' ==> pad.len() == 0
}

/// A written key and a colon begin with no blank.
proof fn lemma_key_first(k: Quotable, rest: Seq<char>)
    requires
        sound_key(k),
    ensures
        ({
            let body = written(k) + seq![':'] + rest;
            &&& !is_space(body[0])
            &&& k.quote is Some ==> body[0] == k.quote->0
            &&& k.quote is None && k.text.len() > 0 ==> body[0] == k.text[0]
            &&& k.quote is None && k.text.len() == 0 ==> body[0] == ':'
        }),
{
    let body = written(k) + seq![':'] + rest;
    match k.quote {
        Some(q) => {
            assert(body[0] == q);
        },
        None => {
            if k.text.len() > 0 {
                assert(body[0] == k.text[0]);
            } else {
                assert(body[0] == ':');
            }
        },
    }
}

/// A written value begins with no blank, and is what is read from it.
proof fn lemma_value_read(v: Quotable)
    requires
        sound_value(v),
    ensures
        written(v).len() > 0,
        !is_space(written(v)[0]),
        value_of(written(v)) == Some((opening(v).len(), v.text)),
        v.quote is None ==> written(v)[0] == v.text[0],
        v.quote is Some ==> written(v)[0] != '#',
        written(v).skip(opening(v).len() as int) == v.text + opening(v) + v.tail,
{
    let text = written(v);
    match v.quote {
        Some(q) => {
            assert(text[0] == q);
            assert(text.skip(1) =~= v.text + seq![q] + v.tail);
            lemma_cut_made(v.text, q, v.tail);
        },
        None => {
            assert(text =~= v.text + v.tail);
            assert(text.skip(0) =~= v.text + opening(v) + v.tail);
            lemma_plain_value(v);
        },
    }
}

/// A line `key: value` is an entry of that name and that version text, each with the
/// column at which it begins, behind a quote where it has one. What follows the value, be
/// it blanks, a comment or anything behind a closing quote, does not count.
pub proof fn law_yaml_line(lead: Seq<char>, k: Quotable, pad: Seq<char>, v: Quotable)
    requires
        sound_line(lead, k, pad, v),
    ensures
        yaml_entry(yaml_line(lead, k, pad, v)) == Some(
            (Entry {
                name: k.text,
                name_at: byte_len(lead + opening(k)),
                spec: v.text,
                spec_at: byte_len(lead + (written(k) + seq![':'] + (pad + opening(v)))),
            }),
        ),
{
    let line = yaml_line(lead, k, pad, v);
    let rest = pad + written(v);
    let body = written(k) + seq![':'] + rest;
    lemma_key_first(k, rest);
    lemma_behind(lead, body);
    law_yaml_key(k, rest);
    lemma_value_read(v);
    lemma_behind(pad, written(v));
    let from = k.text + opening(k) + k.tail + seq![':'] + rest;
    assert(body =~= opening(k) + from);
    assert(line.take(line.len() - from.len()) =~= lead + opening(k));
    let from_value = written(v).skip(opening(v).len() as int);
    assert(written(v) =~= opening(v) + from_value);
    assert(line.take(line.len() - from_value.len()) =~= lead + (written(k) + seq![':'] + (pad
        + opening(v))));
}

/// A line that holds an entry is made of such parts.
#[verifier::rlimit(30)]
pub proof fn law_yaml_parts(line: Seq<char>) -> (r: (Seq<char>, Quotable, Seq<char>, Quotable))
    requires
        yaml_entry(line) is Some,
    ensures
        ({
            let (lead, k, pad, v) = r;
            &&& sound_line(lead, k, pad, v)
            &&& line == yaml_line(lead, k, pad, v)
        }),
{
    lemma_span(line, CharClass::Space);
    let lead = line.take(span(line, CharClass::Space) as int);
    let body = trim_start(line);
    assert(line =~= lead + body);
    assert forall|i: int| 0 <= i < lead.len() implies is_space(#[trigger] lead[i]) by {
        assert(CharClass::Space.has(line[i]));
    }
    let rest = after_colon(body)->0;
    let k = lemma_key_parts(body);
    lemma_span(rest, CharClass::Space);
    let pad = rest.take(span(rest, CharClass::Space) as int);
    let from_value = trim_start(rest);
    assert(rest =~= pad + from_value);
    assert forall|i: int| 0 <= i < pad.len() implies is_space(#[trigger] pad[i]) by {
        assert(CharClass::Space.has(rest[i]));
    }
    let v = lemma_value_parts(from_value);
    lemma_key_first(k, rest);
    lemma_value_read(v);
    (lead, k, pad, v)
}

proof fn lemma_key_parts(body: Seq<char>) -> (k: Quotable)
    requires
        body.len() > 0 ==> !is_space(body[0]),
        key_of(body) is Some,
        after_colon(body) is Some,
    ensures
        sound_key(k),
        body == written(k) + seq![':'] + after_colon(body)->0,
{
    let rest = after_colon(body)->0;
    if is_quoted(body) {
        let q = body[0];
        let inner = body.skip(1);
        lemma_cut_parts(inner, q);
        let (text, after) = unquote(body)->0;
        lemma_cut_parts(after, ':');
        let (tail, _) = cut(after, ':')->0;
        let k = Quotable { quote: Some(q), text, tail };
        assert(body =~= seq![q] + inner);
        assert(body =~= written(k) + seq![':'] + rest);
        k
    } else {
        lemma_cut_parts(body, ':');
        let (before, _) = cut(body, ':')->0;
        let text = trim_end(before);
        lemma_trim_end(before);
        let tail = before.skip(text.len() as int);
        let k = Quotable { quote: None, text, tail };
        assert(before =~= text + tail);
        assert(written(k) =~= before);
        assert forall|i: int| 0 <= i < tail.len() implies is_space(#[trigger] tail[i]) by {
            assert(tail[i] == before[text.len() + i]);
        }
        assert forall|i: int| 0 <= i < text.len() implies #[trigger] text[i] != ':' by {
            assert(text[i] == before[i]);
        }
        if before.len() > 0 {
            assert(body[0] == before[0]);
            if text.len() == 0 {
                assert(is_space(before[0]));
            }
            assert(text[0] == before[0]);
        }
        k
    }
}

proof fn lemma_value_parts(from_value: Seq<char>) -> (v: Quotable)
    requires
        from_value.len() > 0 ==> !is_space(from_value[0]),
        value_of(from_value) is Some,
    ensures
        sound_value(v),
        from_value == written(v),
{
    if is_quoted(from_value) {
        let q = from_value[0];
        let inner = from_value.skip(1);
        lemma_cut_parts(inner, q);
        let (text, tail) = unquote(from_value)->0;
        let v = Quotable { quote: Some(q), text, tail };
        assert(from_value =~= seq![q] + inner);
        assert(from_value =~= written(v));
        v
    } else {
        lemma_first_mark(from_value);
        let plain = without_comment(from_value);
        let text = trim_end(plain);
        lemma_trim_end(plain);
        let tail = from_value.skip(text.len() as int);
        let v = Quotable { quote: None, text, tail };
        assert(from_value =~= text + tail);
        assert(written(v) =~= text + tail);
        assert(text[0] == from_value[0]);
        assert forall|j: int| !#[trigger] mark_at(text, j) by {
            if mark_at(text, j) {
                assert(mark_at(from_value, j));
            }
        }
        let b = plain.skip(text.len() as int);
        assert forall|i: int| 0 <= i < b.len() implies is_space(#[trigger] b[i]) by {
            assert(b[i] == plain[text.len() + i]);
        }
        match find_text(from_value, " #"@) {
            Some(k) => {
                let x = from_value.skip(k as int + 2);
                assert(tail =~= commented(b, x));
            },
            None => {
                assert(tail =~= b);
            },
        }
        v
    }
}

/// A line holds no entry where it is a comment or a list item, where nothing but a comment
/// or blanks follow the colon, and where a quote that is opened there is not closed.
pub proof fn law_yaml_no_entry(
    lead: Seq<char>,
    k: Quotable,
    pad: Seq<char>,
    x: Seq<char>,
    q: char,
)
    requires
        is_blank(lead),
        is_blank(pad),
        q == '"' || q == '\'',
    ensures
        yaml_entry(lead + (seq!['#'] + x)) is None,
        yaml_entry(lead + (seq!['-'] + x)) is None,
        sound_key(k) ==> {
            &&& yaml_entry(lead + (written(k) + seq![':'] + pad)) is None
            &&& pad.len() > 0 ==> yaml_entry(
                lead + (written(k) + seq![':'] + (pad + (seq!['#'] + x))),
            ) is None
            &&& lacks(x, q) ==> yaml_entry(
                lead + (written(k) + seq![':'] + (pad + (seq![q] + x))),
            ) is None
        },
{
    assert((seq!['#'] + x)[0] == '#' && (seq!['-'] + x)[0] == '-');
    lemma_behind(lead, seq!['#'] + x);
    lemma_behind(lead, seq!['-'] + x);
    if sound_key(k) {
        let none = Seq::<char>::empty();
        let comment = seq!['#'] + x;
        let open = seq![q] + x;
        lemma_key_first(k, pad);
        lemma_key_first(k, pad + comment);
        lemma_key_first(k, pad + open);
        lemma_behind(lead, written(k) + seq![':'] + pad);
        lemma_behind(lead, written(k) + seq![':'] + (pad + comment));
        lemma_behind(lead, written(k) + seq![':'] + (pad + open));
        law_yaml_key(k, pad);
        law_yaml_key(k, pad + comment);
        law_yaml_key(k, pad + open);
        assert(pad + none =~= pad);
        lemma_behind(pad, none);
        lemma_behind(pad, comment);
        assert(open[0] == q && comment[0] == '#');
        lemma_behind(pad, open);
        lemma_empty_value();
        if lacks(x, q) {
            assert(open.skip(1) =~= x);
            if cut(x, q) is Some {
                lemma_cut_parts(x, q);
                let (a, b) = cut(x, q)->0;
                assert(x[a.len() as int] == q);
            }
            assert(value_of(open) is None);
        }
    }
}

proof fn lemma_empty_value()
    ensures
        value_of(Seq::<char>::empty()) is None,
{
    let none = Seq::<char>::empty();
    lemma_trim_end(without_comment(none));
    lemma_first_mark(none);
}

/// A key without quotes goes from the start of the text to the colon, without the blanks
/// before that.
pub proof fn law_yaml_plain_key(text: Seq<char>, tail: Seq<char>, rest: Seq<char>)
    requires
        lacks(text, ':'),
        text.len() > 0 ==> !is_space(text.last()) && text[0] != '"' && text[0] != '\'',
        is_blank(tail),
    ensures
        key_of(text + tail + seq![':'] + rest) == Some(text),
{
    let before = text + tail;
    let body = before + seq![':'] + rest;
    assert forall|i: int| 0 <= i < before.len() implies #[trigger] before[i] != ':' by {
        if i < text.len() {
            assert(before[i] == text[i]);
        } else {
            assert(is_space(tail[i - text.len()]));
        }
    }
    lemma_cut_made(before, ':', rest);
    if text.len() > 0 {
        assert(body[0] == text[0]);
        assert(before[text.len() - 1] == text.last());
    } else if tail.len() > 0 {
        assert(body[0] == tail[0]);
    } else {
        assert(body[0] == ':');
    }
    assert forall|i: int| text.len() <= i < before.len() implies is_space(#[trigger] before[i]) by {
        assert(before[i] == tail[i - text.len()]);
    }
    lemma_trim_end_unique(before, text.len());
    assert(before.take(text.len() as int) =~= text);
}

} // verus!
