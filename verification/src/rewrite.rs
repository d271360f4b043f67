//! What rewriting a version does to a line of a `package.json`.
use crate::json_line::{
    after_mark, cut_string, is_inside, lemma_mark_made, lemma_mark_parts, lemma_outside_string,
    lemma_string_made, lemma_string_parts, outside_strings,
};
use crate::manifest::{indent_of, Entry};
use crate::package_json::{json_entry, lead_of};
use crate::text::{
    byte_len, byte_width, cut, fitting, is_space, lacks, lemma_byte_len_concat, lemma_cut_made,
    lemma_cut_parts, lemma_fitting_prefix, lemma_span, lemma_span_concat, span, trim_start,
    CharClass,
};
use crate::text_laws::is_blank;
use vstd::prelude::*;

verus! {

/// The text between two byte columns of a line.
pub open spec fn slice_of(line: Seq<char>, start: nat, end: nat) -> Seq<char> {
    line.subrange(fitting(line, start) as int, fitting(line, end) as int)
}

/// A line with the text between two byte columns replaced.
pub open spec fn spliced(line: Seq<char>, start: nat, end: nat, new: Seq<char>) -> Seq<char> {
    line.take(fitting(line, start) as int) + new + line.skip(fitting(line, end) as int)
}

/// A part of a line lies between its byte columns, and is what a splice replaces.
pub proof fn lemma_part(head: Seq<char>, part: Seq<char>, tail: Seq<char>, new: Seq<char>)
    ensures
        ({
            let line = head + part + tail;
            let start = byte_len(head);
            let end = byte_len(head) + byte_len(part);
            &&& slice_of(line, start, end) == part
            &&& spliced(line, start, end, new) == head + new + tail
            &&& end <= byte_len(line)
        }),
{
    let line = head + part + tail;
    lemma_byte_len_concat(head, part);
    lemma_byte_len_concat(head + part, tail);
    assert(line.take(head.len() as int) =~= head);
    assert(line.take((head.len() + part.len()) as int) =~= head + part);
    lemma_fitting_prefix(line, head.len() as int);
    lemma_fitting_prefix(line, (head.len() + part.len()) as int);
    assert(line.subrange(head.len() as int, (head.len() + part.len()) as int) =~= part);
    assert(line.skip((head.len() + part.len()) as int) =~= tail);
}

/// What stands before the spec of a line `"name": "spec"`.
pub open spec fn json_head(lead: Seq<char>, name: Seq<char>, gap: Seq<char>, pad: Seq<char>) -> Seq<char> {
    lead + seq!['"'] + (name + seq!['"'] + (gap + seq![':'] + (pad + seq!['"'])))
}

/// The parts of a line `"name": "spec"`.
pub struct JsonParts {
    pub lead: Seq<char>,
    pub name: Seq<char>,
    pub gap: Seq<char>,
    pub pad: Seq<char>,
    pub spec_text: Seq<char>,
    pub rest: Seq<char>,
}

/// Whether the name and the version text can stand in strings, nothing before the first
/// of them is a quote, and blanks alone stand on both sides of the colon.
pub open spec fn sound_parts(p: JsonParts) -> bool {
    &&& lacks(p.lead, '"')
    &&& is_inside(p.name)
    &&& is_blank(p.gap)
    &&& is_blank(p.pad)
    &&& is_inside(p.spec_text)
}

/// The line that the parts make.
pub open spec fn json_line(p: JsonParts) -> Seq<char> {
    json_head(p.lead, p.name, p.gap, p.pad) + p.spec_text + (seq!['"'] + p.rest)
}

/// The entry that the parts are.
pub open spec fn parts_entry(p: JsonParts) -> Entry {
    Entry {
        name: p.name,
        name_at: byte_len(p.lead + seq!['"']),
        spec: p.spec_text,
        spec_at: byte_len(json_head(p.lead, p.name, p.gap, p.pad)),
    }
}

/// A line that is made of parts holds their entry: the name and the version text as they
/// stand between the quotes, each with the column behind its opening quote.
pub proof fn law_json_line(p: JsonParts)
    requires
        sound_parts(p),
    ensures
        json_entry(json_line(p)) == Some(parts_entry(p)),
        json_line(p) == p.lead + seq!['"'] + (p.name + seq!['"'] + (p.gap + seq![':'] + (p.pad
            + seq!['"'] + (p.spec_text + seq!['"'] + p.rest)))),
        outside_strings(json_line(p)) == p.lead + (p.gap + seq![':'] + p.pad + outside_strings(
            p.rest,
        )),
        lead_of(json_line(p)) == p.lead,
{
    let line = json_line(p);
    let from_spec = p.spec_text + seq!['"'] + p.rest;
    let after_colon = p.pad + seq!['"'] + from_spec;
    let after_name = p.gap + seq![':'] + after_colon;
    let from_name = p.name + seq!['"'] + after_name;
    assert(line =~= p.lead + seq!['"'] + from_name);
    lemma_cut_made(p.lead, '"', from_name);
    lemma_string_made(p.name, after_name);
    lemma_mark_made(p.gap, ':', after_colon);
    lemma_mark_made(p.pad, '"', from_spec);
    lemma_string_made(p.spec_text, p.rest);
    assert(line.take(line.len() - from_name.len()) =~= p.lead + seq!['"']);
    assert(line.take(line.len() - from_spec.len()) =~= json_head(p.lead, p.name, p.gap, p.pad));
    let between = p.gap + seq![':'] + p.pad;
    assert forall|i: int| 0 <= i < between.len() implies #[trigger] between[i] != '"' by {
        if i < p.gap.len() {
            assert(is_space(p.gap[i]));
        } else if i > p.gap.len() {
            assert(is_space(p.pad[i - p.gap.len() - 1]));
        }
    }
    lemma_outside_string(between, p.spec_text, p.rest);
    assert(after_name =~= between + seq!['"'] + from_spec);
    lemma_outside_string(p.lead, p.name, after_name);
    assert(lead_of(line) =~= p.lead);
}

/// A line that holds an entry is made of parts.
pub proof fn law_json_parts(line: Seq<char>) -> (p: JsonParts)
    requires
        json_entry(line) is Some,
    ensures
        sound_parts(p),
        line == json_line(p),
        json_entry(line) == Some(parts_entry(p)),
{
    lemma_cut_parts(line, '"');
    let (lead, from_name) = cut(line, '"')->0;
    lemma_string_parts(from_name);
    let (name, after_name) = cut_string(from_name)->0;
    let gap = lemma_mark_parts(after_name, ':');
    let after_colon = after_mark(after_name, ':')->0;
    let pad = lemma_mark_parts(after_colon, '"');
    let from_spec = after_mark(after_colon, '"')->0;
    lemma_string_parts(from_spec);
    let (spec_text, rest) = cut_string(from_spec)->0;
    let p = JsonParts { lead, name, gap, pad, spec_text, rest };
    law_json_line(p);
    p
}

/// The columns of an entry of a `package.json` are those of its name and of its
/// version text.
pub proof fn law_json_columns(line: Seq<char>)
    requires
        json_entry(line) is Some,
    ensures
        ({
            let e = json_entry(line)->0;
            &&& e.name_at + byte_len(e.name) <= byte_len(line)
            &&& e.spec_at + byte_len(e.spec) <= byte_len(line)
            &&& slice_of(line, e.name_at, e.name_at + byte_len(e.name)) == e.name
            &&& slice_of(line, e.spec_at, e.spec_at + byte_len(e.spec)) == e.spec
        }),
{
    let p = law_json_parts(line);
    lemma_part(
        json_head(p.lead, p.name, p.gap, p.pad),
        p.spec_text,
        seq!['"'] + p.rest,
        seq![],
    );
    let tail = seq!['"'] + (p.gap + seq![':'] + (p.pad + seq!['"'])) + p.spec_text + (seq!['"']
        + p.rest);
    lemma_part(p.lead + seq!['"'], p.name, tail, seq![]);
    assert(line =~= (p.lead + seq!['"']) + p.name + tail);
}

/// A version text in a `package.json` is the inside of a string.
pub proof fn lemma_json_spec(line: Seq<char>)
    requires
        json_entry(line) is Some,
    ensures
        is_inside((json_entry(line)->0).spec),
{
    let p = law_json_parts(line);
}

proof fn lemma_fitting_grows(s: Seq<char>, a: nat, b: nat)
    requires
        a <= b,
    ensures
        fitting(s, a) <= fitting(s, b) <= s.len(),
    decreases s.len(),
{
    if s.len() > 0 && byte_width(s[0]) <= b {
        let w = byte_width(s[0]);
        if w <= a {
            lemma_fitting_grows(s.drop_first(), (a - w) as nat, (b - w) as nat);
        } else {
            lemma_fitting_grows(s.drop_first(), (b - w) as nat, (b - w) as nat);
        }
    }
}

/// A part of a line holds nothing that the line does not hold.
pub proof fn lemma_slice_lacks(line: Seq<char>, start: nat, end: nat, c: char)
    requires
        start <= end,
        lacks(line, c),
    ensures
        lacks(slice_of(line, start, end), c),
{
    lemma_fitting_grows(line, start, end);
    let part = slice_of(line, start, end);
    assert forall|i: int| 0 <= i < part.len() implies #[trigger] part[i] != c by {
        assert(part[i] == line[fitting(line, start) + i]);
    }
}

/// The entry with another version text in the same place.
pub open spec fn with_spec(e: Entry, new: Seq<char>) -> Entry {
    Entry { spec: new, ..e }
}

/// Replacing the version text in a line of a `package.json` by a text that can stand in
/// a string replaces it in the entry that the line holds, and changes nothing else: not
/// the indentation, nor what stands outside of strings.
pub proof fn law_json_line_rewrite(line: Seq<char>, new: Seq<char>)
    requires
        json_entry(line) is Some,
        is_inside(new),
    ensures
        ({
            let e = json_entry(line)->0;
            let after = spliced(line, e.spec_at, e.spec_at + byte_len(e.spec), new);
            &&& json_entry(after) == Some(with_spec(e, new))
            &&& indent_of(after) == indent_of(line)
            &&& outside_strings(after) == outside_strings(line)
            &&& lead_of(after) == lead_of(line)
        }),
{
    let p = law_json_parts(line);
    let q = JsonParts { spec_text: new, ..p };
    let head = json_head(p.lead, p.name, p.gap, p.pad);
    let tail = seq!['"'] + p.rest;
    lemma_part(head, p.spec_text, tail, new);
    law_json_line(p);
    law_json_line(q);
    assert(head[p.lead.len() as int] == '"');
    lemma_same_indent(head, p.spec_text + tail, new + tail, p.lead.len() as int);
    assert(head + p.spec_text + tail =~= head + (p.spec_text + tail));
    assert(head + new + tail =~= head + (new + tail));
}

/// Lines that begin alike up to something other than white space are indented alike.
pub proof fn lemma_same_indent(head: Seq<char>, a: Seq<char>, b: Seq<char>, at: int)
    requires
        0 <= at < head.len(),
        !is_space(head[at]),
    ensures
        indent_of(head + a) == indent_of(head + b),
{
    lemma_span(head, CharClass::Space);
    let k = span(head, CharClass::Space);
    if k >= head.len() {
        assert(CharClass::Space.has(head[at]));
    }
    lemma_span_concat(head, a, CharClass::Space);
    lemma_span_concat(head, b, CharClass::Space);
    let x = head + a;
    let y = head + b;
    assert(x.take(x.len() - trim_start(x).len()) =~= head.take(k as int));
    assert(y.take(y.len() - trim_start(y).len()) =~= head.take(k as int));
}

} // verus!
