//! What rewriting a version does to a line of a catalog.
use crate::catalogs::{
    after_colon, from_key, is_quote, is_quoted, key_of, lemma_key_prefix, only_comment, value_of,
    without_comment, yaml_entry,
};
use crate::edit::{lemma_range_prefix, range_prefix, rewritten};
use crate::manifest::{column_of, indent_of};
use crate::rewrite::{lemma_part, lemma_same_indent, slice_of, spliced, with_spec};
use crate::rewrite_spec::lemma_version_chars;
use crate::text::{
    byte_len, cut, find_text, is_space, lacks, lemma_cut_made, lemma_cut_parts, lemma_find_text,
    lemma_find_text_unique, lemma_span, lemma_span_concat, lemma_span_unique, lemma_trim_end,
    lemma_trim_end_unique, span, trim_end, trim_start, CharClass,
};
use crate::version::{is_identifier_char, version_text, well_formed, VersionView};
use vstd::prelude::*;

verus! {

/// Whether a comment begins at the given place.
pub open spec fn mark_at(s: Seq<char>, j: int) -> bool {
    0 <= j && j + 1 < s.len() && s[j] == ' ' && s[j + 1] == '#'
}

/// Whether no comment begins anywhere in the text.
pub open spec fn unmarked(s: Seq<char>) -> bool {
    forall|j: int| !#[trigger] mark_at(s, j)
}

proof fn lemma_mark(s: Seq<char>, j: int)
    requires
        0 <= j <= s.len(),
    ensures
        " #"@.is_prefix_of(s.skip(j)) == mark_at(s, j),
{
    reveal_strlit(" #");
    let t = s.skip(j);
    if mark_at(s, j) {
        assert(" #"@ =~= t.subrange(0, 2));
    }
    if " #"@.is_prefix_of(t) {
        let u = t.subrange(0, 2);
        assert(u[0] == s[j] && u[1] == s[j + 1]);
        assert(" #"@[0] == ' ' && " #"@[1] == '#');
    }
}

/// Where the first comment of a text begins.
pub proof fn lemma_first_mark(s: Seq<char>)
    ensures
        match find_text(s, " #"@) {
            Some(k) => mark_at(s, k as int) && forall|j: int| j < k ==> !#[trigger] mark_at(s, j),
            None => unmarked(s),
        },
{
    reveal_strlit(" #");
    lemma_find_text(s, " #"@);
    match find_text(s, " #"@) {
        Some(k) => {
            lemma_mark(s, k as int);
            assert forall|j: int| j < k implies !#[trigger] mark_at(s, j) by {
                if j >= 0 {
                    lemma_mark(s, j);
                    assert(!" #"@.is_prefix_of(s.skip(j)));
                }
            }
        },
        None => {
            assert forall|j: int| !#[trigger] mark_at(s, j) by {
                if 0 <= j <= s.len() {
                    lemma_mark(s, j);
                    assert(!" #"@.is_prefix_of(s.skip(j)));
                }
            }
        },
    }
}

pub proof fn lemma_first_mark_unique(s: Seq<char>, at: Option<nat>)
    requires
        match at {
            Some(k) => mark_at(s, k as int) && forall|j: int| j < k ==> !#[trigger] mark_at(s, j),
            None => unmarked(s),
        },
    ensures
        find_text(s, " #"@) == at,
{
    assert forall|j: int| 0 <= j <= s.len() implies " #"@.is_prefix_of(#[trigger] s.skip(j))
        == mark_at(s, j) by {
        lemma_mark(s, j);
    }
    lemma_find_text_unique(s, " #"@, at);
}

/// Replacing the beginning of a value, up to a place before any comment, by a text
/// that brings in no comment leaves the rest of the value as it was.
#[verifier::rlimit(30)]
proof fn lemma_value_front(front: Seq<char>, new_front: Seq<char>, rest: Seq<char>)
    requires
        new_front.len() > 0,
        !is_space(new_front.last()),
        forall|j: int| j < new_front.len() ==> !#[trigger] mark_at(new_front + rest, j),
        trim_end(without_comment(front + rest)).len() >= front.len(),
    ensures
        trim_end(without_comment(new_front + rest)) == new_front + trim_end(
            without_comment(front + rest),
        ).skip(front.len() as int),
{
    let f = front + rest;
    let g = new_front + rest;
    let shift = new_front.len() - front.len();
    lemma_first_mark(f);
    let wf = without_comment(f);
    lemma_trim_end(wf);
    let n = trim_end(wf).len();
    let at: Option<nat> = match find_text(f, " #"@) {
        Some(k) => Some((k + shift) as nat),
        None => None,
    };
    assert forall|j: int| j >= new_front.len() implies #[trigger] mark_at(g, j) == mark_at(
        f,
        j - shift,
    ) by {}
    match find_text(f, " #"@) {
        Some(k) => {
            assert(mark_at(g, k + shift));
        },
        None => {},
    }
    lemma_first_mark_unique(g, at);
    let wg = without_comment(g);
    assert(wg.len() == wf.len() + shift);
    assert forall|i: int| new_front.len() <= i < wg.len() implies #[trigger] wg[i] == wf[i
        - shift] by {}
    let m = (n + shift) as nat;
    if n > front.len() {
        assert(wg[m - 1] == wf[n - 1]);
        assert(trim_end(wf).last() == wf[n - 1]);
    } else {
        assert(wg[m - 1] == new_front.last());
    }
    assert forall|i: int| m <= i < wg.len() implies is_space(#[trigger] wg[i]) by {
        assert(is_space(wf[i - shift]));
    }
    lemma_trim_end_unique(wg, m);
    let tail = trim_end(wf).skip(front.len() as int);
    assert(wg.take(m as int) =~= new_front + tail) by {
        assert forall|i: int| 0 <= i < m implies wg.take(m as int)[i] == (new_front + tail)[i] by {
            if i >= new_front.len() {
                assert(trim_end(wf)[i - shift] == wf[i - shift]);
            }
        }
    }
}

/// The value of a line, with what follows it.
pub open spec fn value_start(line: Seq<char>) -> Seq<char> {
    trim_start(after_colon(trim_start(line))->0)
}

/// Whether a text can take the place of a value that begins as `from_value` does: in
/// quotes, it does not hold that quote; outside of quotes, it holds no comment, begins
/// with neither a blank nor a quote, nor newly with a `#`, and does not end with a blank.
pub open spec fn can_replace(from_value: Seq<char>, new: Seq<char>) -> bool {
    if is_quoted(from_value) {
        lacks(new, from_value[0])
    } else {
        &&& unmarked(new)
        &&& new.len() > 0
        &&& !is_space(new[0])
        &&& !is_quote(new[0])
        &&& new[0] == '#' ==> from_value[0] == '#'
        &&& !is_space(new.last())
    }
}

/// A value stands where its line says, behind its quote.
proof fn lemma_value_text(from_value: Seq<char>)
    requires
        value_of(from_value) is Some,
    ensures
        ({
            let (quotes, text) = value_of(from_value)->0;
            &&& from_value.len() > 0
            &&& quotes + text.len() <= from_value.len()
            &&& text == from_value.subrange(quotes as int, (quotes + text.len()) as int)
            &&& quotes <= 1
            &&& (quotes == 1) == is_quoted(from_value)
            &&& is_quoted(from_value) ==> lacks(text, from_value[0])
            &&& !is_quoted(from_value) ==> text.len() > 0 && text[0] == from_value[0] && unmarked(
                text,
            ) && text == trim_end(without_comment(from_value))
        }),
{
    let (quotes, text) = value_of(from_value)->0;
    if is_quoted(from_value) {
        let inner = from_value.skip(1);
        lemma_cut_parts(inner, from_value[0]);
        assert(text =~= inner.take(text.len() as int));
        assert(text =~= from_value.subrange(1, (1 + text.len()) as int));
    } else {
        lemma_first_mark(from_value);
        lemma_trim_end(without_comment(from_value));
        assert(text =~= from_value.subrange(0, text.len() as int));
        assert forall|j: int| !#[trigger] mark_at(text, j) by {
            if 0 <= j && j + 1 < text.len() {
                assert(from_value[j] == text[j] && from_value[j + 1] == text[j + 1]);
                assert(!mark_at(from_value, j));
            }
        }
    }
}

/// The line from the value on, with the value replaced.
pub open spec fn value_replaced(from_value: Seq<char>, new: Seq<char>) -> Seq<char> {
    let (quotes, text) = value_of(from_value)->0;
    from_value.take(quotes as int) + new + from_value.skip((quotes + text.len()) as int)
}

proof fn lemma_rewrite_quoted(from_value: Seq<char>, new: Seq<char>)
    requires
        value_of(from_value) is Some,
        is_quoted(from_value),
        lacks(new, from_value[0]),
    ensures
        value_of(value_replaced(from_value, new)) == Some((1nat, new)),
        value_replaced(from_value, new).len() > 0,
        value_replaced(from_value, new)[0] == from_value[0],
{
    lemma_value_text(from_value);
    let (quotes, text) = value_of(from_value)->0;
    let q = from_value[0];
    lemma_cut_parts(from_value.skip(1), q);
    let (inner, rest) = cut(from_value.skip(1), q)->0;
    assert(inner == text);
    let after = value_replaced(from_value, new);
    let from_close = from_value.skip((1 + text.len()) as int);
    assert(from_close =~= from_value.skip(1).skip(text.len() as int));
    assert(from_close =~= seq![q] + rest);
    assert(after.skip(1) =~= new + seq![q] + rest);
    lemma_cut_made(new, q, rest);
}

proof fn lemma_rewrite_unquoted(from_value: Seq<char>, new: Seq<char>)
    requires
        value_of(from_value) is Some,
        !is_quoted(from_value),
        can_replace(from_value, new),
    ensures
        value_of(value_replaced(from_value, new)) == Some((0nat, new)),
        value_replaced(from_value, new).len() > 0,
        value_replaced(from_value, new)[0] == new[0],
{
    lemma_value_text(from_value);
    let (quotes, text) = value_of(from_value)->0;
    let rest = from_value.skip(text.len() as int);
    assert(from_value =~= text + rest);
    let g = new + rest;
    assert forall|j: int| j < new.len() implies !#[trigger] mark_at(g, j) by {
        if 0 <= j && j + 1 < new.len() {
            assert(!mark_at(new, j));
            assert(g[j] == new[j] && g[j + 1] == new[j + 1]);
        } else if j + 1 == new.len() {
            assert(g[j] == new.last());
        }
    }
    lemma_value_front(text, new, rest);
    assert(text.skip(text.len() as int) =~= seq![]);
    assert(new + Seq::<char>::empty() =~= new);
    assert(value_replaced(from_value, new) =~= g);
}

/// Replacing a value replaces it and leaves what follows it.
proof fn lemma_value_rewrite(from_value: Seq<char>, new: Seq<char>)
    requires
        value_of(from_value) is Some,
        can_replace(from_value, new),
    ensures
        ({
            let (quotes, text) = value_of(from_value)->0;
            &&& value_of(value_replaced(from_value, new)) == Some((quotes, new))
            &&& value_replaced(from_value, new).len() > 0
            &&& !is_space(value_replaced(from_value, new)[0])
            &&& value_replaced(from_value, new)[0] == '#' ==> from_value[0] == '#'
        }),
{
    lemma_value_text(from_value);
    if is_quoted(from_value) {
        lemma_rewrite_quoted(from_value, new);
    } else {
        lemma_rewrite_unquoted(from_value, new);
    }
}

/// The part of a line up to the colon behind its key. Whatever follows it, the line
/// keeps its key and its indentation.
#[verifier::rlimit(30)]
proof fn lemma_head(line: Seq<char>, other: Seq<char>) -> (head: Seq<char>)
    requires
        key_of(trim_start(line)) is Some,
        after_colon(trim_start(line)) is Some,
    ensures
        ({
            let body = trim_start(line);
            let after = head + other;
            let new_body = trim_start(after);
            &&& line == head + after_colon(body)->0
            &&& body.len() > 0
            &&& new_body.len() > 0
            &&& new_body[0] == body[0]
            &&& key_of(new_body) == key_of(body)
            &&& after_colon(new_body) == Some(other)
            &&& column_of(after, from_key(new_body)) == column_of(line, from_key(body))
            &&& indent_of(after) == indent_of(line)
        }),
{
    let body = trim_start(line);
    let rest = after_colon(body)->0;
    let k = span(line, CharClass::Space) as int;
    lemma_span(line, CharClass::Space);
    let key_part = if is_quoted(body) {
        let q = body[0];
        let inner = body.skip(1);
        lemma_cut_parts(inner, q);
        let (name, after_name) = cut(inner, q)->0;
        lemma_cut_parts(after_name, ':');
        let (gap, _) = cut(after_name, ':')->0;
        let part = seq![q] + (name + seq![q] + (gap + seq![':']));
        assert(body =~= seq![q] + inner);
        assert(after_name == gap + seq![':'] + rest);
        assert(inner == name + seq![q] + (gap + seq![':'] + rest));
        assert(seq![q] + (name + seq![q] + (gap + seq![':'] + rest)) =~= part + rest);
        let new_inner = name + seq![q] + (gap + seq![':'] + other);
        assert((part + other).skip(1) =~= new_inner);
        lemma_cut_made(name, q, gap + seq![':'] + other);
        lemma_cut_made(gap, ':', other);
        part
    } else {
        lemma_cut_parts(body, ':');
        let (name, _) = cut(body, ':')->0;
        let part = name + seq![':'];
        assert(part + rest =~= name + seq![':'] + rest);
        assert(part + other =~= name + seq![':'] + other);
        lemma_cut_made(name, ':', other);
        part
    };
    let head = line.take(k) + key_part;
    let after = head + other;
    assert(body == key_part + rest);
    assert(line =~= line.take(k) + body);
    assert(line =~= head + rest);
    assert(head[k] == line[k]);
    assert(!is_space(line[k]));
    lemma_same_indent(head, rest, other, k);
    assert forall|i: int| 0 <= i < k implies CharClass::Space.has(#[trigger] head[i]) by {
        assert(head[i] == line[i]);
    }
    lemma_span_unique(head, CharClass::Space, k as nat);
    lemma_span_concat(head, other, CharClass::Space);
    let new_body = trim_start(after);
    assert(new_body =~= key_part + other);
    let (a, b) = (from_key(body), from_key(new_body));
    assert(after.take(after.len() - b.len()) =~= line.take(line.len() - a.len()));
    head
}

proof fn lemma_name_columns(line: Seq<char>)
    requires
        yaml_entry(line) is Some,
    ensures
        ({
            let e = yaml_entry(line)->0;
            &&& e.name_at + byte_len(e.name) <= byte_len(line)
            &&& slice_of(line, e.name_at, e.name_at + byte_len(e.name)) == e.name
        }),
{
    let e = yaml_entry(line)->0;
    let body = trim_start(line);
    let from_name = from_key(body);
    lemma_span(line, CharClass::Space);
    lemma_key_prefix(body, e.name);
    let lead = line.take(line.len() - from_name.len());
    let tail = from_name.skip(e.name.len() as int);
    assert(from_name =~= line.skip(line.len() - from_name.len()));
    assert(line =~= lead + from_name);
    assert(from_name =~= e.name + tail);
    assert(lead + (e.name + tail) =~= lead + e.name + tail);
    lemma_part(lead, e.name, tail, seq![]);
}

/// The columns of an entry of a catalog are those of its name and of its version text.
#[verifier::rlimit(30)]
pub proof fn law_yaml_columns(line: Seq<char>)
    requires
        yaml_entry(line) is Some,
    ensures
        ({
            let e = yaml_entry(line)->0;
            &&& e.name_at + byte_len(e.name) <= byte_len(line)
            &&& e.spec_at + byte_len(e.spec) <= byte_len(line)
            &&& slice_of(line, e.name_at, e.name_at + byte_len(e.name)) == e.name
            &&& slice_of(line, e.spec_at, e.spec_at + byte_len(e.spec)) == e.spec
        }),
{
    lemma_name_columns(line);
    let rest = after_colon(trim_start(line))->0;
    let head = lemma_head(line, seq![]);
    let from_value = value_start(line);
    lemma_span(rest, CharClass::Space);
    lemma_value_text(from_value);
    let (quotes, text) = value_of(from_value)->0;
    let from_spec = from_value.skip(quotes as int);
    let front = line.take(line.len() - from_spec.len());
    let back = from_value.skip((quotes + text.len()) as int);
    assert(from_spec =~= line.skip(line.len() - from_spec.len()));
    assert(line =~= front + from_spec);
    assert(from_spec =~= text + back);
    assert(front + (text + back) =~= front + text + back);
    lemma_part(front, text, back, seq![]);
}

/// What follows a colon, with the value in it replaced.
spec fn rest_replaced(rest: Seq<char>, new: Seq<char>) -> Seq<char> {
    rest.take(span(rest, CharClass::Space) as int) + value_replaced(trim_start(rest), new)
}

/// Replacing a value behind a colon replaces it and nothing else.
proof fn lemma_rest_rewrite(rest: Seq<char>, new: Seq<char>)
    requires
        value_of(trim_start(rest)) is Some,
        can_replace(trim_start(rest), new),
        !only_comment(rest),
    ensures
        trim_start(rest_replaced(rest, new)) == value_replaced(trim_start(rest), new),
        !only_comment(rest_replaced(rest, new)),
        value_of(trim_start(rest_replaced(rest, new))) == Some(
            ((value_of(trim_start(rest))->0).0, new),
        ),
{
    let from_value = trim_start(rest);
    lemma_span(rest, CharClass::Space);
    lemma_value_text(from_value);
    lemma_value_rewrite(from_value, new);
    let blank = rest.take(span(rest, CharClass::Space) as int);
    let new_value = value_replaced(from_value, new);
    let new_rest = rest_replaced(rest, new);
    assert forall|i: int| 0 <= i < blank.len() implies CharClass::Space.has(
        #[trigger] new_rest[i],
    ) by {
        assert(new_rest[i] == rest[i]);
    }
    assert(new_rest[blank.len() as int] == new_value[0]);
    lemma_span_unique(new_rest, CharClass::Space, blank.len());
    assert(trim_start(new_rest) =~= new_value);
}

/// Replacing the version text in a line of a catalog by a text that can stand there
/// replaces it in the entry that the line holds, and changes nothing else.
#[verifier::rlimit(30)]
pub proof fn law_yaml_line_rewrite(line: Seq<char>, new: Seq<char>)
    requires
        yaml_entry(line) is Some,
        can_replace(value_start(line), new),
    ensures
        ({
            let e = yaml_entry(line)->0;
            let after = spliced(line, e.spec_at, e.spec_at + byte_len(e.spec), new);
            &&& yaml_entry(after) == Some(with_spec(e, new))
            &&& indent_of(after) == indent_of(line)
            &&& trim_start(after).len() > 0
            &&& trim_start(line).len() > 0
            &&& trim_start(after)[0] == trim_start(line)[0]
        }),
{
    let e = yaml_entry(line)->0;
    let rest = after_colon(trim_start(line))->0;
    let from_value = value_start(line);
    lemma_span(rest, CharClass::Space);
    let blank = rest.take(span(rest, CharClass::Space) as int);
    assert(rest =~= blank + from_value);
    let (quotes, text) = value_of(from_value)->0;
    lemma_value_text(from_value);
    lemma_rest_rewrite(rest, new);
    let tail = from_value.skip((quotes + text.len()) as int);
    let new_value = value_replaced(from_value, new);
    let new_rest = rest_replaced(rest, new);
    let head = lemma_head(line, new_rest);
    let after = head + new_rest;
    let front = head + blank + from_value.take(quotes as int);
    assert(line =~= front + text + tail);
    assert(after =~= front + new + tail);
    lemma_part(front, text, tail, new);
    assert(line.take(line.len() - from_value.skip(quotes as int).len()) =~= front);
    assert(after.take(after.len() - new_value.skip(quotes as int).len()) =~= front);
}

/// A version text in a catalog, rewritten to another version, can stand where it stood.
pub proof fn lemma_can_rewrite(line: Seq<char>, v: VersionView)
    requires
        yaml_entry(line) is Some,
        well_formed(v),
    ensures
        can_replace(value_start(line), rewritten((yaml_entry(line)->0).spec, v)),
{
    let e = yaml_entry(line)->0;
    let from_value = value_start(line);
    lemma_span(after_colon(trim_start(line))->0, CharClass::Space);
    lemma_value_text(from_value);
    lemma_version_chars(v);
    lemma_range_prefix(e.spec);
    let prefix = range_prefix(e.spec);
    let text = version_text(v);
    let new = rewritten(e.spec, v);
    assert forall|i: int| 0 <= i < new.len() implies new[i] == (if i < prefix.len() {
        e.spec[i]
    } else {
        text[i - prefix.len()]
    }) by {}
    assert forall|j: int| 0 <= j < text.len() implies !is_space(#[trigger] text[j]) && !is_quote(
        text[j],
    ) && text[j] != '#' by {
        assert(is_identifier_char(text[j]) || text[j] == '+');
    }
    if is_quoted(from_value) {
        assert(lacks(new, from_value[0]));
    } else {
        assert forall|j: int| !#[trigger] mark_at(new, j) by {
            if mark_at(new, j) {
                if j + 1 < prefix.len() {
                    assert(mark_at(e.spec, j));
                } else {
                    assert(new[j + 1] == text[j + 1 - prefix.len()]);
                }
            }
        }
        assert(new.last() == text[text.len() - 1]);
        if prefix.len() > 0 {
            assert(new[0] == e.spec[0]);
            assert(e.spec[0] == from_value[0]);
        } else {
            assert(new[0] == text[0]);
        }
    }
}

} // verus!
