//! The dependencies that a `package.json` lists.
use crate::json_line::{
    after_mark, brace_balance, cut_string, lemma_mark_parts, lowest, nesting, outside_strings,
    past_mark, string_len, unquoted,
};
use crate::manifest::{
    column, column_of, columns, dep_views, entry_shows, indent_of, lemma_suffix_bytes, placed,
    Dependency, DependencyView, Entry,
};
use crate::text::{
    byte_len, bytes_in, chars_of, cut, lemma_span, lemma_total_len_take, lines, lines_of, position,
    same_text, skip, span, span_len, take, text_of, total_len, trimmed_start, views, CharClass,
};
use std::ops::Range;
use vstd::prelude::*;

verus! {

/// The entry that a line `"name": "spec"` holds: the first string of the line, and the
/// one that follows it behind a colon.
pub open spec fn json_entry(line: Seq<char>) -> Option<Entry> {
    match cut(line, '"') {
        None => None,
        Some((_, from_name)) => match cut_string(from_name) {
            None => None,
            Some((name, after_name)) => match after_mark(after_name, ':') {
                None => None,
                Some(after_colon) => match after_mark(after_colon, '"') {
                    None => None,
                    Some(from_spec) => match cut_string(from_spec) {
                        None => None,
                        Some((spec_text, _)) => Some(
                            Entry {
                                name,
                                name_at: column_of(line, from_name),
                                spec: spec_text,
                                spec_at: column_of(line, from_spec),
                            },
                        ),
                    },
                },
            },
        },
    }
}

/// The first quoted text of a line that begins with a quote. A missing closing
/// quote leaves the rest of the line.
pub open spec fn object_key(trimmed: Seq<char>) -> Option<Seq<char>> {
    if trimmed.len() > 0 && trimmed[0] == '"' {
        let rest = trimmed.skip(1);
        Some(rest.take(span(rest, CharClass::Except('"')) as int))
    } else {
        None
    }
}

/// The sections of a `package.json` that list dependencies.
pub open spec fn is_json_section(key: Seq<char>) -> bool {
    ||| key == "dependencies"@
    ||| key == "devDependencies"@
    ||| key == "peerDependencies"@
    ||| key == "optionalDependencies"@
}

/// What stands before the first string of a line.
pub open spec fn lead_of(line: Seq<char>) -> Seq<char> {
    line.take(span(line, CharClass::Except('"')) as int)
}

/// The section that a line opens and leaves open, if its first string is the key of one,
/// as in `"section": {` or `}, "section": {`.
pub open spec fn opened_section(line: Seq<char>) -> Option<Seq<char>> {
    let body = line.skip(lead_of(line).len() as int);
    match object_key(body) {
        None => None,
        Some(key) => match after_mark(body.skip(1 + key.len() as int), '"') {
            None => None,
            Some(after_key) => match after_mark(after_key, ':') {
                None => None,
                Some(after_colon) => match after_mark(after_colon, '{') {
                    None => None,
                    Some(inside) => if is_json_section(key) && lowest(outside_strings(inside))
                        >= 0 {
                        Some(key)
                    } else {
                        None
                    },
                },
            },
        },
    }
}

/// The nesting at the first string of a line, before which the nesting is `depth`.
pub open spec fn depth_at(depth: int, line: Seq<char>) -> int {
    depth + brace_balance(lead_of(line))
}

/// Whether an object with the nesting `inside` in it, in which a line begins, is still
/// open at the first string of the line.
pub open spec fn reaches(depth: int, line: Seq<char>, inside: int) -> bool {
    depth + lowest(lead_of(line)) >= inside
}

/// Whether the first string of a line stands in the object that the line begins in, and
/// in no object inside that.
pub open spec fn is_direct(depth: int, line: Seq<char>, inside: int) -> bool {
    reaches(depth, line, inside) && depth_at(depth, line) == inside
}

/// Whether an object that a line begins in is still open after it.
pub open spec fn stays_open(depth: int, line: Seq<char>, inside: int) -> bool {
    depth + lowest(outside_strings(line)) >= inside
}

/// What is known of a `package.json` after some of its lines.
#[verifier::ext_equal]
pub struct JsonScan {
    pub deps: Seq<DependencyView>,
    /// The section the next line begins in.
    pub section: Option<Seq<char>>,
    /// The nesting of braces inside the last section.
    pub inside: int,
    /// The nesting of braces. It is 1 in the outermost object.
    pub depth: int,
}

pub open spec fn json_start() -> JsonScan {
    JsonScan { deps: seq![], section: None, inside: 0, depth: 0 }
}

/// Whether a line opens a section: outside of any section, in the outermost object or,
/// where the braces around that are missing, in none.
pub open spec fn opens_section(st: JsonScan, line: Seq<char>) -> bool {
    &&& opened_section(line) is Some
    &&& depth_at(st.depth, line) <= 1
    &&& st.section is Some ==> !reaches(st.depth, line, st.inside)
}

/// Reads one more line. A section ends where its brace is closed, and the next one may
/// open in the same line. An entry counts where it stands directly in a section. Braces
/// count outside of strings only.
pub open spec fn json_step(st: JsonScan, line: Seq<char>, row: nat) -> JsonScan {
    let opens = opens_section(st, line);
    JsonScan {
        deps: if st.section is Some && json_entry(line) is Some && is_direct(
            st.depth,
            line,
            st.inside,
        ) {
            st.deps.push(placed(json_entry(line)->0, st.section->0, row, indent_of(line)))
        } else {
            st.deps
        },
        section: if opens {
            opened_section(line)
        } else if st.section is Some && stays_open(st.depth, line, st.inside) {
            st.section
        } else {
            None
        },
        inside: if opens {
            depth_at(st.depth, line) + 1
        } else {
            st.inside
        },
        depth: st.depth + brace_balance(outside_strings(line)),
    }
}

pub open spec fn json_scan(all: Seq<Seq<char>>) -> JsonScan
    decreases all.len(),
{
    if all.len() == 0 {
        json_start()
    } else {
        json_step(json_scan(all.drop_last()), all.last(), (all.len() - 1) as nat)
    }
}

/// The dependencies that a `package.json` lists, in the order of its lines.
pub open spec fn package_json_deps(text: Seq<char>) -> Seq<DependencyView> {
    json_scan(lines(text)).deps
}

/// Reads a line `"name": "spec"`: the name, its columns, the spec and its
/// columns, both between their quotes.
fn read_json_entry(line: &[char]) -> (r: Option<(String, Range<u32>, String, Range<u32>)>)
    requires
        byte_len(line@) <= usize::MAX,
    ensures
        entry_shows(r, json_entry(line@)),
{
    let key_open: usize = match position(line, '"') {
        Some(k) => k,
        None => {
            return None;
        },
    };
    let from_name = skip(line, key_open + 1);
    let key_len: usize = match string_len(from_name) {
        Some(k) => k,
        None => {
            return None;
        },
    };
    let after_name = skip(from_name, key_len + 1);
    let after_colon = match past_mark(after_name, ':') {
        Some(rest) => rest,
        None => {
            return None;
        },
    };
    let from_spec = match past_mark(after_colon, '"') {
        Some(rest) => rest,
        None => {
            return None;
        },
    };
    let value_len: usize = match string_len(from_spec) {
        Some(k) => k,
        None => {
            return None;
        },
    };
    let name = take(from_name, key_len);
    let value = take(from_spec, value_len);
    proof {
        lemma_suffix_bytes(line@, from_name@, name@.len() as int);
        let gap = lemma_mark_parts(after_name@, ':');
        let pad = lemma_mark_parts(after_colon@, '"');
        assert(after_name@ =~= line@.skip(line@.len() - after_name@.len()));
        assert(after_colon@ =~= after_name@.skip(gap.len() as int + 1));
        assert(from_spec@ =~= after_colon@.skip(pad.len() as int + 1));
        assert(after_colon@ =~= line@.skip(line@.len() - after_colon@.len()));
        assert(from_spec@ =~= line@.skip(line@.len() - from_spec@.len()));
        lemma_suffix_bytes(line@, from_spec@, value@.len() as int);
    }
    let name_at: usize = column(line, from_name.len());
    let spec_at: usize = column(line, from_spec.len());
    Some(
        (
            text_of(name),
            columns(name_at, bytes_in(name)),
            text_of(value),
            columns(spec_at, bytes_in(value)),
        ),
    )
}

/// Parses a line `"name": "spec"` of a `package.json`: the name, the columns of
/// the name, the spec and the columns of the spec, both inside their quotes.
pub fn parse_json_entry(line: &str) -> (r: Option<(String, Range<u32>, String, Range<u32>)>)
    ensures
        entry_shows(r, json_entry(line@)),
{
    let chars = chars_of(line);
    read_json_entry(chars.as_slice())
}

/// The first quoted text of a line that begins with a quote.
pub fn json_object_key(trimmed: &str) -> (r: Option<String>)
    ensures
        match r {
            Some(key) => object_key(trimmed@) == Some(key@),
            None => object_key(trimmed@) is None,
        },
{
    let chars = chars_of(trimmed);
    read_object_key(chars.as_slice())
}

fn read_object_key(trimmed: &[char]) -> (r: Option<String>)
    ensures
        match r {
            Some(key) => object_key(trimmed@) == Some(key@),
            None => object_key(trimmed@) is None,
        },
{
    if trimmed.len() > 0 && trimmed[0] == '"' {
        let rest = skip(trimmed, 1);
        let k: usize = span_len(rest, CharClass::Except('"'));
        Some(text_of(take(rest, k)))
    } else {
        None
    }
}

/// The section of that name, if there is one.
fn json_section(key: &str) -> (r: bool)
    ensures
        r == is_json_section(key@),
{
    same_text(key, "dependencies") || same_text(key, "devDependencies") || same_text(
        key,
        "peerDependencies",
    ) || same_text(key, "optionalDependencies")
}

/// The section that a line opens and leaves open.
fn read_section(line: &[char]) -> (r: Option<String>)
    ensures
        match r {
            Some(key) => opened_section(line@) == Some(key@),
            None => opened_section(line@) is None,
        },
{
    let lead: usize = span_len(line, CharClass::Except('"'));
    let body = skip(line, lead);
    let key = match read_object_key(body) {
        Some(key) => key,
        None => {
            return None;
        },
    };
    let key_len: usize = chars_of(key.as_str()).len();
    proof {
        lemma_span(body@.skip(1), CharClass::Except('"'));
        assert(body@.skip(1).skip(key_len as int) =~= body@.skip(1 + key_len));
    }
    let after_key = match past_mark(skip(skip(body, 1), key_len), '"') {
        Some(rest) => rest,
        None => {
            return None;
        },
    };
    let after_colon = match past_mark(after_key, ':') {
        Some(rest) => rest,
        None => {
            return None;
        },
    };
    let inside = match past_mark(after_colon, '{') {
        Some(rest) => rest,
        None => {
            return None;
        },
    };
    let bare = unquoted(inside);
    if json_section(key.as_str()) && nesting(bare.as_slice()).1 >= 0 {
        Some(key)
    } else {
        None
    }
}

/// The dependencies that a `package.json` lists, in the order of its lines.
pub fn parse_package_json(text: &str) -> (r: Vec<Dependency>)
    ensures
        dep_views(r@) == package_json_deps(text@),
{
    let all = lines_of(text);
    let mut deps: Vec<Dependency> = Vec::new();
    let mut section: Option<String> = None;
    let mut inside: i128 = 0;
    let mut depth: i128 = 0;
    let mut row: usize = 0;
    proof {
        assert(views(all@).take(0) =~= seq![]);
        assert(dep_views(deps@) =~= seq![]);
    }
    while row < all.len()
        invariant
            row <= all@.len(),
            views(all@) == lines(text@),
            json_scan(views(all@).take(row as int)) == (JsonScan {
                deps: dep_views(deps@),
                section: match section {
                    Some(s) => Some(s@),
                    None => None,
                },
                inside: inside as int,
                depth: depth as int,
            }),
            total_len(lines(text@)) <= usize::MAX,
            -total_len(views(all@).take(row as int)) <= depth <= total_len(
                views(all@).take(row as int),
            ),
            total_len(views(all@).take(row as int)) <= usize::MAX,
        decreases all@.len() - row,
    {
        let chars = chars_of(all[row].as_str());
        let line = chars.as_slice();
        let ghost before = dep_views(deps@);
        let ghost prev = views(all@).take(row as int);
        proof {
            assert(views(all@).take(row + 1).drop_last() =~= prev);
            assert(views(all@).take(row + 1).last() == line@);
            lemma_total_len_take(views(all@), row + 1);
        }
        let indent: usize = column(line, trimmed_start(line).len());
        let bare = unquoted(line);
        let (balance, least) = nesting(bare.as_slice());
        let (lead_balance, lead_least) = nesting(
            take(line, span_len(line, CharClass::Except('"'))),
        );
        let at: i128 = depth + lead_balance;
        let reached = depth + lead_least >= inside;
        if let Some(ref context) = section {
            if reached && at == inside {
                if let Some((name, name_cols, spec_text, value_cols)) = read_json_entry(line) {
                    deps.push(
                        Dependency {
                            name,
                            spec: spec_text,
                            context: context.clone(),
                            row: row as u32,
                            indent: indent as u32,
                            name_cols,
                            value_cols,
                        },
                    );
                    proof {
                        assert(dep_views(deps@) =~= before.push(deps@.last()@));
                    }
                }
            }
        }
        let next: Option<String> = if at <= 1 && !(section.is_some() && reached) {
            read_section(line)
        } else {
            None
        };
        if next.is_some() {
            section = next;
            inside = at + 1;
        } else if depth + least < inside {
            section = None;
        }
        depth = depth + balance;
        row += 1;
    }
    proof {
        assert(views(all@).take(row as int) =~= views(all@));
    }
    deps
}

} // verus!
