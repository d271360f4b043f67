//! Which lines of a `package.json` are listed.
use crate::catalog_laws::triples;
use crate::json_line::{
    after_mark, brace_balance, is_inside, lemma_mark_made, lemma_mark_parts, lemma_outside_string,
    lemma_plain_inside, lowest, outside_strings, string_end,
};
use crate::listing::{
    law_sections, lemma_depth, lemma_json_grows, lemma_open_section, nesting_after,
};
use crate::package_json::{
    json_entry, json_scan, json_step, lead_of, object_key, opened_section, opens_section,
    package_json_deps, JsonScan,
};
use crate::rewrite::{json_line, law_json_line, law_json_parts, sound_parts, JsonParts};
use crate::text::{
    cut, is_space, lacks, lemma_cut_made, lemma_cut_parts, lemma_span, lemma_span_unique, lines,
    CharClass,
};
use crate::text_laws::is_blank;
use vstd::prelude::*;

verus! {

/// What can stand inside a string: every text without quotes and backslashes, every
/// backslash with the character behind it, and two such texts one after the other.
pub proof fn law_inside(a: Seq<char>, c: char, b: Seq<char>)
    ensures
        lacks(a, '"') && lacks(a, '\\') ==> is_inside(a),
        is_inside(seq!['\\', c]),
        is_inside(a) && is_inside(b) ==> is_inside(a + b),
    decreases a.len(),
{
    if lacks(a, '"') && lacks(a, '\\') {
        lemma_plain_inside(a);
    }
    let pair = seq!['\\', c];
    assert(pair[0] == '\\' && pair.len() == 2);
    assert(pair.skip(2) =~= Seq::<char>::empty());
    assert(is_inside(pair.skip(2)));
    if is_inside(a) && is_inside(b) {
        if a.len() == 0 {
            assert(a + b =~= b);
        } else {
            let step: int = if a[0] == '\\' {
                2
            } else {
                1
            };
            assert((a + b)[0] == a[0]);
            assert((a + b).skip(step) =~= a.skip(step) + b);
            law_inside(a.skip(step), c, b);
        }
    }
}

/// What cannot stand inside a string: a quote without a backslash of its own, and a
/// backslash with nothing behind it.
pub proof fn law_not_inside(a: Seq<char>, b: Seq<char>)
    requires
        is_inside(a),
    ensures
        !is_inside(a + seq!['"'] + b),
        !is_inside(a + seq!['\\']),
    decreases a.len(),
{
    let s = a + seq!['"'] + b;
    let t = a + seq!['\\'];
    if a.len() == 0 {
        assert(s[0] == '"');
        assert(t[0] == '\\' && t.len() == 1);
    } else {
        let step: int = if a[0] == '\\' {
            2
        } else {
            1
        };
        assert(s[0] == a[0] && t[0] == a[0]);
        assert(s.skip(step) =~= a.skip(step) + seq!['"'] + b);
        assert(t.skip(step) =~= a.skip(step) + seq!['\\']);
        law_not_inside(a.skip(step), b);
    }
}

proof fn lemma_no_end(s: Seq<char>)
    requires
        is_inside(s),
    ensures
        string_end(s) is None,
        string_end(s + seq!['\\']) is None,
    decreases s.len(),
{
    let t = s + seq!['\\'];
    if s.len() > 0 {
        let step: int = if s[0] == '\\' {
            2
        } else {
            1
        };
        assert(t[0] == s[0]);
        assert(t.skip(step) =~= s.skip(step) + seq!['\\']);
        lemma_no_end(s.skip(step));
    } else {
        assert(t[0] == '\\' && t.len() == 1);
    }
}

/// What stands outside of the strings of a line: all of it where there is no quote, what
/// stands around a string where there is one, and what stands before a string that does
/// not end.
pub proof fn law_outside_strings(lead: Seq<char>, inside: Seq<char>, rest: Seq<char>)
    requires
        lacks(lead, '"'),
        is_inside(inside),
    ensures
        outside_strings(lead) == lead,
        outside_strings(lead + seq!['"'] + (inside + seq!['"'] + rest)) == lead + outside_strings(
            rest,
        ),
        outside_strings(lead + seq!['"'] + inside) == lead,
        outside_strings(lead + seq!['"'] + (inside + seq!['\\'])) == lead,
{
    lemma_outside_string(lead, inside, rest);
    lemma_no_end(inside);
    lemma_cut_made(lead, '"', inside);
    lemma_cut_made(lead, '"', inside + seq!['\\']);
    if cut(lead, '"') is Some {
        lemma_cut_parts(lead, '"');
        let (a, b) = cut(lead, '"')->0;
        assert(lead[a.len() as int] == '"');
    }
}

/// The nesting changes by one at each brace, and nowhere else.
pub proof fn law_brace_balance(s: Seq<char>, c: char)
    ensures
        brace_balance(Seq::<char>::empty()) == 0,
        brace_balance(s.push(c)) == brace_balance(s) + if c == '{' {
            1int
        } else if c == '}' {
            -1
        } else {
            0
        },
{
    assert(s.push(c).drop_last() =~= s);
}

/// The lowest nesting of a text is the least of those behind its beginnings.
pub proof fn law_lowest(s: Seq<char>)
    ensures
        forall|k: int| 0 <= k <= s.len() ==> lowest(s) <= brace_balance(#[trigger] s.take(k)),
        exists|k: int| 0 <= k <= s.len() && lowest(s) == brace_balance(#[trigger] s.take(k)),
    decreases s.len(),
{
    assert(s.take(s.len() as int) =~= s);
    if s.len() > 0 {
        let rest = s.drop_last();
        law_lowest(rest);
        assert forall|k: int| 0 <= k <= s.len() implies lowest(s) <= brace_balance(
            #[trigger] s.take(k),
        ) by {
            if k < s.len() {
                assert(rest.take(k) =~= s.take(k));
            }
        }
        let k = choose|k: int|
            0 <= k <= rest.len() && lowest(rest) == brace_balance(#[trigger] rest.take(k));
        assert(rest.take(k) =~= s.take(k));
        if lowest(s) == brace_balance(s) {
            assert(lowest(s) == brace_balance(s.take(s.len() as int)));
        } else {
            assert(lowest(s) == brace_balance(s.take(k)));
        }
    } else {
        assert(lowest(s) == brace_balance(s.take(0)));
    }
}

/// A text goes at least as low as its beginning does.
proof fn lemma_lowest_concat(a: Seq<char>, b: Seq<char>)
    ensures
        lowest(a + b) <= lowest(a) <= brace_balance(a),
{
    law_lowest(a);
    law_lowest(a + b);
    let k = choose|k: int| 0 <= k <= a.len() && lowest(a) == brace_balance(#[trigger] a.take(k));
    assert((a + b).take(k) =~= a.take(k));
    assert(a.take(a.len() as int) =~= a);
}

/// The key of a line that begins with a quote goes up to the next quote, or to the end of
/// the line where there is none. A line that begins otherwise has no key.
pub proof fn law_object_key(key: Seq<char>, rest: Seq<char>)
    requires
        lacks(key, '"'),
    ensures
        object_key(seq!['"'] + key + seq!['"'] + rest) == Some(key),
        object_key(seq!['"'] + key) == Some(key),
        key.len() > 0 ==> object_key(key + rest) is None,
        object_key(Seq::<char>::empty()) is None,
{
    let s = seq!['"'] + key + seq!['"'] + rest;
    let class = CharClass::Except('"');
    let t = s.skip(1);
    assert(t =~= key + seq!['"'] + rest);
    assert forall|i: int| 0 <= i < key.len() implies class.has(#[trigger] t[i]) by {
        assert(t[i] == key[i]);
    }
    lemma_span_unique(t, class, key.len());
    assert(t.take(key.len() as int) =~= key);
    assert((seq!['"'] + key).skip(1) =~= key);
    lemma_span_unique(key, class, key.len());
    assert(key.take(key.len() as int) =~= key);
    if key.len() > 0 {
        assert((key + rest)[0] == key[0]);
    }
}

/// The parts of a line `"section": {`.
pub struct SectionParts {
    pub lead: Seq<char>,
    pub key: Seq<char>,
    pub gap: Seq<char>,
    pub pad: Seq<char>,
    pub tail: Seq<char>,
}

/// The line that the parts make.
pub open spec fn section_line(p: SectionParts) -> Seq<char> {
    p.lead + seq!['"'] + (p.key + seq!['"'] + (p.gap + seq![':'] + (p.pad + seq!['{'] + p.tail)))
}

/// Whether no quote stands before the key, the key is none other than one of the four, and
/// blanks alone stand on both sides of the colon.
pub open spec fn sound_section(p: SectionParts) -> bool {
    &&& lacks(p.lead, '"')
    &&& p.key == "dependencies"@ || p.key == "devDependencies"@ || p.key == "peerDependencies"@
        || p.key == "optionalDependencies"@
    &&& is_blank(p.gap)
    &&& is_blank(p.pad)
}

proof fn lemma_key_lacks(key: Seq<char>)
    requires
        key == "dependencies"@ || key == "devDependencies"@ || key == "peerDependencies"@ || key
            == "optionalDependencies"@,
    ensures
        lacks(key, '"'),
{
    reveal_strlit("dependencies");
    reveal_strlit("devDependencies");
    reveal_strlit("peerDependencies");
    reveal_strlit("optionalDependencies");
}

/// What stands before the first quote of a line.
pub proof fn law_lead(lead: Seq<char>, rest: Seq<char>)
    requires
        lacks(lead, '"'),
    ensures
        lead_of(lead) == lead,
        lead_of(lead + seq!['"'] + rest) == lead,
{
    let s = lead + seq!['"'] + rest;
    let class = CharClass::Except('"');
    assert forall|i: int| 0 <= i < lead.len() implies class.has(#[trigger] s[i]) by {
        assert(s[i] == lead[i]);
    }
    lemma_span_unique(s, class, lead.len());
    assert(s.take(lead.len() as int) =~= lead);
    lemma_span_unique(lead, class, lead.len());
    assert(lead.take(lead.len() as int) =~= lead);
}

/// A quoted key of a section, a colon and a brace open that section, for each of the
/// four, unless the line closes the brace again.
pub proof fn law_section_line(p: SectionParts)
    requires
        sound_section(p),
    ensures
        opened_section(section_line(p)) == if lowest(outside_strings(p.tail)) >= 0 {
            Some(p.key)
        } else {
            None
        },
        lead_of(section_line(p)) == p.lead,
{
    let line = section_line(p);
    let after_colon = p.pad + seq!['{'] + p.tail;
    let after_key = p.gap + seq![':'] + after_colon;
    let from_key = p.key + seq!['"'] + after_key;
    lemma_key_lacks(p.key);
    law_lead(p.lead, from_key);
    let body = line.skip(p.lead.len() as int);
    assert(body =~= seq!['"'] + p.key + seq!['"'] + after_key);
    law_object_key(p.key, after_key);
    let none = Seq::<char>::empty();
    assert(body.skip(1 + p.key.len() as int) =~= none + seq!['"'] + after_key);
    lemma_mark_made(none, '"', after_key);
    lemma_mark_made(p.gap, ':', after_colon);
    lemma_mark_made(p.pad, '{', p.tail);
}

/// A line that opens a section is made of such parts.
pub proof fn law_section_parts(line: Seq<char>) -> (p: SectionParts)
    requires
        opened_section(line) is Some,
    ensures
        sound_section(p),
        line == section_line(p),
        opened_section(line) == Some(p.key),
        lowest(outside_strings(p.tail)) >= 0,
{
    let lead = lead_of(line);
    lemma_span(line, CharClass::Except('"'));
    let body = line.skip(lead.len() as int);
    let key = object_key(body)->0;
    let rest = body.skip(1);
    lemma_span(rest, CharClass::Except('"'));
    let from = body.skip(1 + key.len() as int);
    let none = lemma_mark_parts(from, '"');
    let after_key = after_mark(from, '"')->0;
    let gap = lemma_mark_parts(after_key, ':');
    let after_colon = after_mark(after_key, ':')->0;
    let pad = lemma_mark_parts(after_colon, '{');
    let tail = after_mark(after_colon, '{')->0;
    let p = SectionParts { lead, key, gap, pad, tail };
    if none.len() > 0 {
        assert(from[0] == none[0]);
        assert(from[0] == rest[key.len() as int]);
    }
    assert(from =~= seq!['"'] + after_key);
    assert(body =~= seq!['"'] + (key + from)) by {
        assert(rest =~= key + from);
    }
    assert(line =~= lead + body);
    assert(line =~= section_line(p));
    assert forall|i: int| 0 <= i < lead.len() implies #[trigger] lead[i] != '"' by {
        assert(CharClass::Except('"').has(line[i]));
    }
    p
}

/// Whether the strings that lines begin with stand in objects with at least the given
/// nesting in them, in all lines before one.
pub open spec fn none_outside(all: Seq<Seq<char>>, to: int, least: int) -> bool {
    forall|t: int|
        0 <= t < to && !lacks(#[trigger] all[t], '"') ==> nesting_after(all.take(t))
            + brace_balance(before_quote(all[t])) >= least
}

/// What stands before the first quote of a line that has one.
pub open spec fn before_quote(line: Seq<char>) -> Seq<char> {
    match cut(line, '"') {
        Some((before, _)) => before,
        None => line,
    }
}

/// What stands outside of the strings begins with what stands before the first of them.
proof fn lemma_lead_outside(line: Seq<char>)
    ensures
        lowest(outside_strings(line)) <= lowest(lead_of(line)),
{
    lemma_span(line, CharClass::Except('"'));
    let lead = lead_of(line);
    let out = outside_strings(line);
    let rest = out.skip(lead.len() as int);
    match cut(line, '"') {
        Some((before, inside)) => {
            assert(before == lead);
            assert(out =~= lead + rest);
        },
        None => {
            assert(lead =~= line);
            assert(out =~= lead + rest);
        },
    }
    lemma_lowest_concat(lead, rest);
}

/// Whether a section is open before a line.
spec fn is_open(all: Seq<Seq<char>>, t: int, key: Seq<char>, inside: int) -> bool {
    json_scan(all.take(t)).section == Some(key) && json_scan(all.take(t)).inside == inside
}

/// A section stays open over the lines that do not close its brace.
proof fn lemma_section_stays(
    all: Seq<Seq<char>>,
    from: int,
    to: int,
    key: Seq<char>,
    inside: int,
)
    requires
        0 <= from <= to <= all.len(),
        is_open(all, from, key, inside),
        forall|t: int|
            from <= t < to ==> nesting_after(all.take(t)) + lowest(
                outside_strings(#[trigger] all[t]),
            ) >= inside,
    ensures
        is_open(all, to, key, inside),
    decreases to - from,
{
    if from < to {
        let upto = all.take(from + 1);
        assert(upto.drop_last() =~= all.take(from));
        assert(upto.last() == all[from]);
        lemma_depth(all.take(from));
        lemma_lead_outside(all[from]);
        assert(is_open(all, from + 1, key, inside));
        lemma_section_stays(all, from + 1, to, key, inside);
    }
}

/// A `"name": "spec"` line directly in an open section is listed.
proof fn lemma_row_listed(
    all: Seq<Seq<char>>,
    row: int,
    key: Seq<char>,
    inside: int,
    e: JsonParts,
) -> (i: int)
    requires
        0 <= row < all.len(),
        is_open(all, row, key, inside),
        all[row] == json_line(e),
        sound_parts(e),
        nesting_after(all.take(row)) + lowest(e.lead) >= inside,
        nesting_after(all.take(row)) + brace_balance(e.lead) == inside,
    ensures
        0 <= i < json_scan(all).deps.len(),
        json_scan(all).deps[i].context == key,
        json_scan(all).deps[i].name == e.name,
        json_scan(all).deps[i].spec == e.spec_text,
        json_scan(all).deps[i].row == row as u32,
{
    let before = all.take(row);
    let upto = all.take(row + 1);
    assert(upto.drop_last() =~= before);
    assert(upto.last() == all[row]);
    lemma_depth(before);
    law_json_line(e);
    let i = json_scan(before).deps.len() as int;
    assert(json_scan(upto).deps.len() == i + 1);
    lemma_json_grows(all, row + 1);
    assert(json_scan(all).deps.take(i + 1)[i] == json_scan(all).deps[i]);
    i
}

/// The nesting at the key of a section.
pub open spec fn key_depth(all: Seq<Seq<char>>, t: int, p: SectionParts) -> int {
    nesting_after(all.take(t)) + brace_balance(p.lead)
}

/// Whether an earlier line is the quoted key of a section, a colon and a brace that it leaves
/// open, in the outermost object or in none, and that object is still open in another line
/// behind what that begins with.
pub open spec fn holds_place(
    all: Seq<Seq<char>>,
    t: int,
    p: SectionParts,
    row: int,
    lead: Seq<char>,
) -> bool {
    &&& 0 <= t < row < all.len()
    &&& all[t] == section_line(p) && sound_section(p)
    &&& lowest(outside_strings(p.tail)) >= 0
    &&& key_depth(all, t, p) <= 1
    &&& forall|u: int|
        t < u < row ==> nesting_after(all.take(u)) + lowest(outside_strings(#[trigger] all[u]))
            > key_depth(all, t, p)
    &&& nesting_after(all.take(row)) + lowest(lead) > key_depth(all, t, p)
}

/// Whether no such object is open in a line behind what it begins with.
pub open spec fn in_no_section(all: Seq<Seq<char>>, row: int, lead: Seq<char>) -> bool {
    forall|t: int, p: SectionParts| !#[trigger] holds_place(all, t, p, row, lead)
}

/// The lowest nesting of two texts is that of the first or that of the second behind it.
proof fn lemma_lowest_sum(a: Seq<char>, b: Seq<char>)
    ensures
        lowest(a + b) >= lowest(a) || lowest(a + b) >= brace_balance(a) + lowest(b),
{
    law_lowest(a);
    law_lowest(b);
    law_lowest(a + b);
    let s = a + b;
    let k = choose|k: int| 0 <= k <= s.len() && lowest(s) == brace_balance(#[trigger] s.take(k));
    if k <= a.len() {
        assert(s.take(k) =~= a.take(k));
    } else {
        assert(s.take(k) =~= a + b.take(k - a.len()));
        lemma_balance_concat(a, b.take(k - a.len()));
    }
}

/// A line that opens a section goes no lower than what stands before the key.
proof fn lemma_section_lowest(p: SectionParts)
    requires
        sound_section(p),
        lowest(outside_strings(p.tail)) >= 0,
    ensures
        lowest(outside_strings(section_line(p))) >= lowest(p.lead),
{
    let inner = outside_strings(p.tail);
    let between = lemma_section_outside(p);
    let plain = between.drop_last();
    assert(between =~= plain + seq!['{']);
    lemma_lowest_sum(plain, seq!['{']);
    law_lowest(seq!['{']);
    let k = choose|k: int|
        0 <= k <= 1 && lowest(seq!['{']) == brace_balance(#[trigger] seq!['{'].take(k));
    let none = Seq::<char>::empty();
    law_brace_balance(none, '{');
    assert(none.push('{') =~= seq!['{']);
    if k == 0 {
        assert(seq!['{'].take(0) =~= none);
    } else {
        assert(seq!['{'].take(1) =~= seq!['{']);
    }
    lemma_balance_concat(plain, seq!['{']);
    lemma_lowest_sum(between, inner);
    lemma_lowest_sum(p.lead, between + inner);
    lemma_lowest_concat(p.lead, none);
    assert(p.lead + none =~= p.lead);
}

/// What stands outside of the strings of a line that opens a section.
proof fn lemma_section_outside(p: SectionParts) -> (between: Seq<char>)
    requires
        sound_section(p),
    ensures
        outside_strings(section_line(p)) == p.lead + (between + outside_strings(p.tail)),
        between.len() > 0,
        between.last() == '{',
        brace_balance(between.drop_last()) == 0,
        lowest(between.drop_last()) == 0,
        brace_balance(between) == 1,
{
    let between = p.gap + seq![':'] + p.pad + seq!['{'];
    let after = p.gap + seq![':'] + (p.pad + seq!['{'] + p.tail);
    lemma_key_inside(p.key);
    lemma_outside_string(p.lead, p.key, after);
    assert(after =~= between + p.tail);
    assert forall|i: int| 0 <= i < between.len() implies #[trigger] between[i] != '"' && (i
        < between.len() - 1 ==> between[i] != '{' && between[i] != '}') by {
        if i < p.gap.len() {
            assert(is_space(p.gap[i]));
        } else if p.gap.len() < i < between.len() - 1 {
            assert(is_space(p.pad[i - p.gap.len() - 1]));
        }
    }
    lemma_outside_front(between, p.tail);
    let plain = between.drop_last();
    assert forall|i: int| 0 <= i < plain.len() implies #[trigger] plain[i] != '{' && plain[i]
        != '}' by {
        assert(plain[i] == between[i]);
    }
    lemma_no_braces(plain);
    law_brace_balance(plain, '{');
    assert(plain.push('{') =~= between);
    between
}

/// In an object that a section's key opened a section is open.
proof fn lemma_in_section(
    all: Seq<Seq<char>>,
    t: int,
    p: SectionParts,
    row: int,
    lead: Seq<char>,
)
    requires
        holds_place(all, t, p, row, lead),
    ensures
        json_scan(all.take(row)).section is Some,
        nesting_after(all.take(row)) + lowest(lead) >= json_scan(all.take(row)).inside,
{
    let depth = key_depth(all, t, p);
    let before = all.take(t);
    let upto = all.take(t + 1);
    let st = json_scan(before);
    assert(upto.drop_last() =~= before);
    assert(upto.last() == all[t]);
    lemma_depth(before);
    law_section_line(p);
    let none = Seq::<char>::empty();
    lemma_lowest_concat(p.lead, none);
    assert(p.lead + none =~= p.lead);
    if opens_section(st, all[t]) {
        assert(is_open(all, t + 1, p.key, depth + 1));
        lemma_section_stays(all, t + 1, row, p.key, depth + 1);
    } else {
        lemma_section_lowest(p);
        let (key, inside) = (st.section->0, st.inside);
        assert(is_open(all, t + 1, key, inside));
        lemma_section_stays(all, t + 1, row, key, inside);
    }
}

/// Outside of all such objects no section is open.
proof fn lemma_no_section(all: Seq<Seq<char>>, row: int, lead: Seq<char>)
    requires
        0 <= row < all.len(),
        in_no_section(all, row, lead),
        json_scan(all.take(row)).section is Some,
    ensures
        nesting_after(all.take(row)) + lowest(lead) < json_scan(all.take(row)).inside,
{
    let before = all.take(row);
    let t = lemma_open_section(before);
    assert(before[t] == all[t]);
    assert(before.take(t) =~= all.take(t));
    let p = law_section_parts(all[t]);
    law_section_line(p);
    assert forall|u: int| t < u < row implies nesting_after(all.take(u)) + lowest(
        outside_strings(#[trigger] all[u]),
    ) > key_depth(all, t, p) by {
        assert(before[u] == all[u]);
        assert(before.take(u) =~= all.take(u));
    }
    if nesting_after(all.take(row)) + lowest(lead) >= json_scan(before).inside {
        assert(holds_place(all, t, p, row, lead));
    }
}

/// The listing is complete. Where a line is the quoted key `dependencies`,
/// `devDependencies`, `peerDependencies` or `optionalDependencies`, a colon and a brace that
/// it leaves open, in the outermost object or in none and in no other section, every later
/// line that stands directly in that object and is a `"name": "spec"` line is listed, under
/// that key.
pub proof fn law_entry_listed(
    text: Seq<char>,
    from: int,
    row: int,
    s: SectionParts,
    e: JsonParts,
) -> (i: int)
    requires
        holds_place(lines(text), from, s, row, e.lead),
        in_no_section(lines(text), from, s.lead),
        lines(text)[row] == json_line(e),
        sound_parts(e),
        nesting_after(lines(text).take(row)) + brace_balance(e.lead) == key_depth(
            lines(text),
            from,
            s,
        ) + 1,
    ensures
        0 <= i < package_json_deps(text).len(),
        package_json_deps(text)[i].context == s.key,
        package_json_deps(text)[i].name == e.name,
        package_json_deps(text)[i].spec == e.spec_text,
        package_json_deps(text)[i].row == row as u32,
{
    let all = lines(text);
    let depth = key_depth(all, from, s);
    let before = all.take(from);
    let upto = all.take(from + 1);
    assert(upto.drop_last() =~= before);
    assert(upto.last() == all[from]);
    lemma_depth(before);
    law_section_line(s);
    if json_scan(before).section is Some {
        lemma_no_section(all, from, s.lead);
    }
    assert(is_open(all, from + 1, s.key, depth + 1));
    lemma_section_stays(all, from + 1, row, s.key, depth + 1);
    lemma_row_listed(all, row, s.key, depth + 1, e)
}

/// A line of the outermost object stands in no section where no string before it stands
/// further out than it does.
pub proof fn law_outermost(all: Seq<Seq<char>>, from: int, lead: Seq<char>)
    requires
        0 <= from < all.len(),
        none_outside(all, from, nesting_after(all.take(from)) + brace_balance(lead)),
    ensures
        in_no_section(all, from, lead),
{
    let depth = nesting_after(all.take(from)) + brace_balance(lead);
    let none = Seq::<char>::empty();
    lemma_lowest_concat(lead, none);
    assert(lead + none =~= lead);
    assert forall|t: int, p: SectionParts| !#[trigger] holds_place(all, t, p, from, lead) by {
        if holds_place(all, t, p, from, lead) {
            let rest = p.key + seq!['"'] + (p.gap + seq![':'] + (p.pad + seq!['{'] + p.tail));
            lemma_cut_made(p.lead, '"', rest);
            assert(all[t][p.lead.len() as int] == '"');
            assert(!lacks(all[t], '"'));
            assert(before_quote(all[t]) == p.lead);
        }
    }
}

/// The listing of the outermost object is complete. Where a line of it is the quoted key
/// `dependencies`, `devDependencies`, `peerDependencies` or `optionalDependencies`, a colon
/// and a brace that it leaves open, and no string before that stands outside of the outermost
/// object, every later line that stands directly in the object of the key and is a
/// `"name": "spec"` line is listed, under that key.
pub proof fn law_section_listed(
    text: Seq<char>,
    from: int,
    row: int,
    s: SectionParts,
    e: JsonParts,
) -> (i: int)
    requires
        0 <= from < row < lines(text).len(),
        none_outside(lines(text), from, 1),
        lines(text)[from] == section_line(s) && sound_section(s),
        lowest(outside_strings(s.tail)) >= 0,
        nesting_after(lines(text).take(from)) + brace_balance(s.lead) == 1,
        forall|u: int|
            from < u < row ==> nesting_after(lines(text).take(u)) + lowest(
                outside_strings(#[trigger] lines(text)[u]),
            ) >= 2,
        lines(text)[row] == json_line(e) && sound_parts(e),
        nesting_after(lines(text).take(row)) + lowest(e.lead) >= 2,
        nesting_after(lines(text).take(row)) + brace_balance(e.lead) == 2,
    ensures
        0 <= i < package_json_deps(text).len(),
        package_json_deps(text)[i].context == s.key,
        package_json_deps(text)[i].name == e.name,
        package_json_deps(text)[i].spec == e.spec_text,
        package_json_deps(text)[i].row == row as u32,
{
    law_outermost(lines(text), from, s.lead);
    law_entry_listed(text, from, row, s, e)
}

/// Nothing else is listed. What is listed stands in a `"name": "spec"` line, directly in an
/// object that an earlier line opened with one of the four keys, a colon and a brace, in the
/// outermost object or in none and in no other section, and that is open ever since.
pub proof fn law_only_sections(text: Seq<char>, i: int) -> (r: (int, int, SectionParts, JsonParts))
    requires
        0 <= i < package_json_deps(text).len(),
    ensures
        ({
            let all = lines(text);
            let dep = package_json_deps(text)[i];
            let (from, row, s, e) = r;
            &&& holds_place(all, from, s, row, e.lead)
            &&& in_no_section(all, from, s.lead)
            &&& all[row] == json_line(e) && sound_parts(e)
            &&& nesting_after(all.take(row)) + brace_balance(e.lead) == key_depth(all, from, s) + 1
            &&& dep.context == s.key && dep.name == e.name && dep.spec == e.spec_text
            &&& dep.row == row as u32
        }),
{
    let all = lines(text);
    let (from, row) = law_sections(text, i);
    let s = law_section_parts(all[from]);
    law_section_line(s);
    let e = law_json_parts(all[row]);
    law_json_line(e);
    lemma_depth(all.take(from));
    assert forall|t: int, p: SectionParts| !#[trigger] holds_place(all, t, p, from, s.lead) by {
        if holds_place(all, t, p, from, s.lead) {
            lemma_in_section(all, t, p, from, s.lead);
        }
    }
    assert(holds_place(all, from, s, row, e.lead));
    (from, row, s, e)
}

/// A beginning without quotes stands outside of all strings.
proof fn lemma_outside_front(front: Seq<char>, rest: Seq<char>)
    requires
        lacks(front, '"'),
    ensures
        outside_strings(front + rest) == front + outside_strings(rest),
{
    let s = front + rest;
    match cut(rest, '"') {
        Some((before, inside)) => {
            lemma_cut_parts(rest, '"');
            let lead = front + before;
            assert(s =~= lead + seq!['"'] + inside);
            assert forall|i: int| 0 <= i < lead.len() implies #[trigger] lead[i] != '"' by {
                if i < front.len() {
                    assert(lead[i] == front[i]);
                } else {
                    assert(lead[i] == before[i - front.len()]);
                }
            }
            lemma_cut_made(lead, '"', inside);
            assert(outside_strings(s) =~= front + outside_strings(rest));
        },
        None => {
            lemma_span(rest, CharClass::Except('"'));
            assert forall|i: int| 0 <= i < s.len() implies #[trigger] s[i] != '"' by {
                if i < front.len() {
                    assert(s[i] == front[i]);
                } else {
                    assert(CharClass::Except('"').has(rest[i - front.len()]));
                }
            }
            law_outside_strings(s, Seq::<char>::empty(), rest);
        },
    }
}

proof fn lemma_balance_concat(a: Seq<char>, b: Seq<char>)
    ensures
        brace_balance(a + b) == brace_balance(a) + brace_balance(b),
    decreases b.len(),
{
    if b.len() == 0 {
        assert(a + b =~= a);
    } else {
        assert((a + b).drop_last() =~= a + b.drop_last());
        lemma_balance_concat(a, b.drop_last());
    }
}

proof fn lemma_no_braces(s: Seq<char>)
    requires
        lacks(s, '{'),
        lacks(s, '}'),
    ensures
        brace_balance(s) == 0,
        lowest(s) == 0,
    decreases s.len(),
{
    if s.len() > 0 {
        let rest = s.drop_last();
        assert forall|i: int| 0 <= i < rest.len() implies #[trigger] rest[i] != '{' && rest[i]
            != '}' by {
            assert(rest[i] == s[i]);
        }
        assert(s.last() == s[s.len() - 1]);
        lemma_no_braces(rest);
    }
}

/// In an open section the nesting is that of the section at least.
proof fn lemma_open_depth(all: Seq<Seq<char>>)
    ensures
        json_scan(all).section is Some ==> json_scan(all).depth >= json_scan(all).inside,
    decreases all.len(),
{
    if all.len() > 0 {
        let rest = all.drop_last();
        let line = all.last();
        lemma_open_depth(rest);
        let st = json_scan(rest);
        let out = outside_strings(line);
        let none = Seq::<char>::empty();
        if opens_section(st, line) {
            let p = law_section_parts(line);
            law_section_line(p);
            let between = lemma_section_outside(p);
            let inner = outside_strings(p.tail);
            lemma_balance_concat(p.lead, between + inner);
            lemma_balance_concat(between, inner);
            lemma_lowest_concat(inner, none);
            assert(inner + none =~= inner);
        } else {
            lemma_lowest_concat(out, none);
            assert(out + none =~= out);
        }
    }
}

proof fn lemma_key_inside(key: Seq<char>)
    requires
        key == "dependencies"@ || key == "devDependencies"@ || key == "peerDependencies"@ || key
            == "optionalDependencies"@,
    ensures
        is_inside(key),
{
    reveal_strlit("dependencies");
    reveal_strlit("devDependencies");
    reveal_strlit("peerDependencies");
    reveal_strlit("optionalDependencies");
    lemma_plain_inside(key);
}

/// Whether two scans differ at most in the rows of what they found.
spec fn alike(s: JsonScan, t: JsonScan) -> bool {
    &&& s.section == t.section
    &&& s.inside == t.inside
    &&& s.depth == t.depth
    &&& triples(s.deps) == triples(t.deps)
}

proof fn lemma_step_alike(s: JsonScan, t: JsonScan, line: Seq<char>, m: nat, n: nat)
    requires
        alike(s, t),
    ensures
        alike(json_step(s, line, m), json_step(t, line, n)),
{
    let (u, v) = (json_step(s, line, m), json_step(t, line, n));
    assert(triples(s.deps).len() == triples(t.deps).len());
    assert forall|i: int| 0 <= i < s.deps.len() implies s.deps[i].context == (
    #[trigger] t.deps[i]).context && s.deps[i].name == t.deps[i].name && s.deps[i].spec
        == t.deps[i].spec by {
        assert(triples(s.deps)[i] == triples(t.deps)[i]);
    }
    assert(triples(u.deps) =~= triples(v.deps));
}

proof fn lemma_plain_line(all: Seq<Seq<char>>, c: Seq<char>)
    requires
        lacks(c, '"'),
        lacks(c, '{'),
        lacks(c, '}'),
    ensures
        json_scan(all.push(c)) == json_scan(all),
{
    let st = json_scan(all);
    assert(all.push(c).drop_last() =~= all);
    lemma_open_depth(all);
    lemma_no_braces(c);
    law_outside_strings(c, Seq::<char>::empty(), c);
    law_lead(c, c);
    if cut(c, '"') is Some {
        lemma_cut_parts(c, '"');
        let (a, b) = cut(c, '"')->0;
        assert(c[a.len() as int] == '"');
    }
    assert(json_entry(c) is None);
    assert(c.skip(c.len() as int) =~= Seq::<char>::empty());
    assert(object_key(c.skip(c.len() as int)) is None);
    assert(opened_section(c) is None);
    assert(json_scan(all.push(c)) =~= st);
}

/// Lines without quotes and braces, such as blank ones, do not matter: what is listed is
/// the same without them.
pub proof fn law_plain_lines(a: Seq<Seq<char>>, c: Seq<char>, b: Seq<Seq<char>>)
    requires
        lacks(c, '"'),
        lacks(c, '{'),
        lacks(c, '}'),
    ensures
        triples(json_scan(a + seq![c] + b).deps) == triples(json_scan(a + b).deps),
{
    lemma_plain_lines(a, c, b);
}

proof fn lemma_plain_lines(a: Seq<Seq<char>>, c: Seq<char>, b: Seq<Seq<char>>)
    requires
        lacks(c, '"'),
        lacks(c, '{'),
        lacks(c, '}'),
    ensures
        alike(json_scan(a + seq![c] + b), json_scan(a + b)),
    decreases b.len(),
{
    let (x, y) = (a + seq![c] + b, a + b);
    if b.len() == 0 {
        assert(y =~= a);
        assert(x =~= a.push(c));
        lemma_plain_line(a, c);
    } else {
        let rest = b.drop_last();
        assert(x.drop_last() =~= a + seq![c] + rest);
        assert(y.drop_last() =~= a + rest);
        assert(x.last() == b.last() && y.last() == b.last());
        lemma_plain_lines(a, c, rest);
        lemma_step_alike(
            json_scan(x.drop_last()),
            json_scan(y.drop_last()),
            b.last(),
            (x.len() - 1) as nat,
            (y.len() - 1) as nat,
        );
    }
}

} // verus!
