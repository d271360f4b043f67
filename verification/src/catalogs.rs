//! The dependencies in the catalogs of a `pnpm-workspace.yaml`.
use crate::manifest::{
    column, column_of, columns, dep_views, entry_shows, indent_of, lemma_suffix_bytes, placed,
    Dependency, DependencyView, Entry,
};
use crate::text::{
    byte_len, bytes_in, chars_of, cut, find_text, lemma_span, lemma_trim_end, lines, lines_of,
    position, same_text, skip, take, text_of, text_position, trim_end, trim_start, trimmed_end,
    trimmed_start, views, CharClass,
};
use std::ops::Range;
use vstd::prelude::*;
use vstd::string::*;

verus! {

pub open spec fn is_quote(c: char) -> bool {
    c == '"' || c == '\''
}

pub open spec fn is_quoted(s: Seq<char>) -> bool {
    s.len() > 0 && is_quote(s[0])
}

/// What stands between the quote that `s` begins with and the next one like it,
/// and what stands after that.
pub open spec fn unquote(s: Seq<char>) -> Option<(Seq<char>, Seq<char>)> {
    cut(s.skip(1), s[0])
}

/// The key of a line `key:` or `key: value`, without its quotes.
pub open spec fn key_of(trimmed: Seq<char>) -> Option<Seq<char>> {
    if is_quoted(trimmed) {
        match unquote(trimmed) {
            Some((key, _)) => Some(key),
            None => None,
        }
    } else {
        match cut(trimmed, ':') {
            Some((key, _)) => Some(trim_end(key)),
            None => None,
        }
    }
}

/// The text from the key of a line on, inside a quote before it.
pub open spec fn from_key(trimmed: Seq<char>) -> Seq<char> {
    if is_quoted(trimmed) {
        trimmed.skip(1)
    } else {
        trimmed
    }
}

/// What stands after the colon that follows the key.
pub open spec fn after_colon(trimmed: Seq<char>) -> Option<Seq<char>> {
    let after_key = if is_quoted(trimmed) {
        match unquote(trimmed) {
            Some((_, rest)) => Some(rest),
            None => None,
        }
    } else {
        Some(trimmed)
    };
    match after_key {
        Some(rest) => match cut(rest, ':') {
            Some((_, rest)) => Some(rest),
            None => None,
        },
        None => None,
    }
}

/// `s` up to a comment: a `#` with a blank before it.
pub open spec fn without_comment(s: Seq<char>) -> Seq<char> {
    match find_text(s, " #"@) {
        Some(k) => s.take(k as int),
        None => s,
    }
}

/// The value at the beginning of `s`, and how many quotes stand before it. A quoted value
/// is what stands between its quotes; another one ends before a comment.
pub open spec fn value_of(s: Seq<char>) -> Option<(nat, Seq<char>)> {
    if is_quoted(s) {
        match unquote(s) {
            Some((inner, _)) => Some((1, inner)),
            None => None,
        }
    } else {
        let value = trim_end(without_comment(s));
        if value.len() == 0 {
            None
        } else {
            Some((0, value))
        }
    }
}

/// Whether nothing but a comment follows a colon: a `#` with a blank before it.
pub open spec fn only_comment(rest: Seq<char>) -> bool {
    let from_value = trim_start(rest);
    from_value.len() > 0 && from_value[0] == '#' && from_value.len() < rest.len()
}

/// The entry that a line `key: value` holds. A line without a value, a comment
/// and a list item hold none.
pub open spec fn yaml_entry(line: Seq<char>) -> Option<Entry> {
    let body = trim_start(line);
    if body.len() > 0 && (body[0] == '#' || body[0] == '-') {
        None
    } else {
        match (key_of(body), after_colon(body)) {
            (Some(name), Some(rest)) => {
                let from_value = trim_start(rest);
                match value_of(from_value) {
                    Some((quotes, spec_text)) => if only_comment(rest) {
                        None
                    } else {
                        Some(
                            Entry {
                                name,
                                name_at: column_of(line, from_key(body)),
                                spec: spec_text,
                                spec_at: column_of(line, from_value.skip(quotes as int)),
                            },
                        )
                    },
                    None => None,
                }
            },
            _ => None,
        }
    }
}

/// The part of the file that a line lies in.
#[derive(Clone, Copy, PartialEq, Eq, Structural)]
pub enum Mode {
    Outside,
    DefaultCatalog,
    NamedCatalogs,
}

/// What is known of a `pnpm-workspace.yaml` after some of its lines.
#[verifier::ext_equal]
pub struct CatalogScan {
    pub deps: Seq<DependencyView>,
    pub mode: Mode,
    /// The named catalog that the next line lies in.
    pub catalog: Option<Seq<char>>,
}

pub open spec fn catalog_start() -> CatalogScan {
    CatalogScan { deps: seq![], mode: Mode::Outside, catalog: None }
}

/// The part of the file that a line at the left margin opens.
pub open spec fn opened_mode(body: Seq<char>) -> Mode {
    if key_of(body) == Some("catalog"@) {
        Mode::DefaultCatalog
    } else if key_of(body) == Some("catalogs"@) {
        Mode::NamedCatalogs
    } else {
        Mode::Outside
    }
}

/// Reads one more line. Blank lines and comments count for nothing; a line at
/// the left margin opens a part of the file; an indented one is an entry or,
/// among the named catalogs, opens the next of them.
pub open spec fn catalog_step(st: CatalogScan, line: Seq<char>, row: nat) -> CatalogScan {
    let body = trim_start(line);
    let indent = indent_of(line);
    if body.len() == 0 || body[0] == '#' {
        st
    } else if indent == 0 {
        CatalogScan { mode: opened_mode(body), catalog: None, ..st }
    } else {
        match (st.mode, yaml_entry(line)) {
            (Mode::DefaultCatalog, Some(e)) => CatalogScan {
                deps: st.deps.push(placed(e, "catalog"@, row, indent)),
                ..st
            },
            (Mode::NamedCatalogs, Some(e)) => match st.catalog {
                Some(catalog) => CatalogScan {
                    deps: st.deps.push(placed(e, "catalogs."@ + catalog, row, indent)),
                    ..st
                },
                None => st,
            },
            (Mode::NamedCatalogs, None) => match key_of(body) {
                Some(key) => CatalogScan { catalog: Some(key), ..st },
                None => st,
            },
            _ => st,
        }
    }
}

pub open spec fn catalog_scan(all: Seq<Seq<char>>) -> CatalogScan
    decreases all.len(),
{
    if all.len() == 0 {
        catalog_start()
    } else {
        catalog_step(catalog_scan(all.drop_last()), all.last(), (all.len() - 1) as nat)
    }
}

/// The dependencies in the catalogs of a `pnpm-workspace.yaml`, in the order of its lines.
pub open spec fn catalog_deps(text: Seq<char>) -> Seq<DependencyView> {
    catalog_scan(lines(text)).deps
}

/// Reads the key of a line `key:` or `key: value`, without its quotes.
fn read_key(trimmed: &[char]) -> (r: Option<String>)
    ensures
        match r {
            Some(key) => key_of(trimmed@) == Some(key@),
            None => key_of(trimmed@) is None,
        },
{
    if trimmed.len() > 0 && (trimmed[0] == '"' || trimmed[0] == '\'') {
        let inner = skip(trimmed, 1);
        match position(inner, trimmed[0]) {
            Some(close) => Some(text_of(take(inner, close))),
            None => None,
        }
    } else {
        match position(trimmed, ':') {
            Some(colon) => Some(text_of(trimmed_end(take(trimmed, colon)))),
            None => None,
        }
    }
}

/// Extracts the key from a line `key:` or `key: value`, without its quotes.
pub fn yaml_key(trimmed: &str) -> (r: Option<String>)
    ensures
        match r {
            Some(key) => key_of(trimmed@) == Some(key@),
            None => key_of(trimmed@) is None,
        },
{
    let chars = chars_of(trimmed);
    read_key(chars.as_slice())
}

/// Where the text after the colon that follows the key begins.
fn colon_end(trimmed: &[char]) -> (r: Option<usize>)
    ensures
        match r {
            Some(k) => k <= trimmed@.len() && after_colon(trimmed@) == Some(trimmed@.skip(k as int)),
            None => after_colon(trimmed@) is None,
        },
{
    let mut start: usize = 0;
    if trimmed.len() > 0 && (trimmed[0] == '"' || trimmed[0] == '\'') {
        let inner = skip(trimmed, 1);
        match position(inner, trimmed[0]) {
            Some(close) => {
                start = close + 2;
                proof {
                    assert(inner@.skip(close + 1) =~= trimmed@.skip(start as int));
                }
            },
            None => {
                return None;
            },
        }
    } else {
        proof {
            assert(trimmed@.skip(0) =~= trimmed@);
        }
    }
    let rest = skip(trimmed, start);
    match position(rest, ':') {
        Some(colon) => {
            proof {
                assert(rest@.skip(colon + 1) =~= trimmed@.skip(start + colon + 1));
            }
            Some(start + colon + 1)
        },
        None => None,
    }
}

/// Reads the value at the beginning of `s`: how many quotes stand before it, and
/// its length.
fn read_value(s: &[char]) -> (r: Option<(usize, usize)>)
    ensures
        match r {
            Some((quotes, len)) => {
                &&& quotes <= 1
                &&& quotes + len <= s@.len()
                &&& value_of(s@) == Some((quotes as nat, s@.skip(quotes as int).take(len as int)))
            },
            None => value_of(s@) is None,
        },
{
    if s.len() > 0 && (s[0] == '"' || s[0] == '\'') {
        let inner = skip(s, 1);
        return match position(inner, s[0]) {
            Some(close) => Some((1, close)),
            None => None,
        };
    }
    let mark = chars_of(" #");
    let uncommented = match text_position(s, mark.as_slice()) {
        Some(k) => take(s, k),
        None => s,
    };
    let value = trimmed_end(uncommented);
    proof {
        lemma_trim_end(uncommented@);
        assert(value@ =~= s@.skip(0).take(value@.len() as int));
    }
    if value.len() == 0 {
        None
    } else {
        Some((0, value.len()))
    }
}

/// Reads a line `key: value`: the key, its columns, the value and its columns.
fn read_yaml_entry(line: &[char]) -> (r: Option<(String, Range<u32>, String, Range<u32>)>)
    requires
        byte_len(line@) <= usize::MAX,
    ensures
        entry_shows(r, yaml_entry(line@)),
{
    let body = trimmed_start(line);
    if body.len() > 0 && (body[0] == '#' || body[0] == '-') {
        return None;
    }
    let name = match read_key(body) {
        Some(name) => name,
        None => {
            return None;
        },
    };
    let value_from: usize = match colon_end(body) {
        Some(k) => k,
        None => {
            return None;
        },
    };
    let rest = skip(body, value_from);
    let from_value = trimmed_start(rest);
    if from_value.len() > 0 && from_value[0] == '#' && from_value.len() < rest.len() {
        return None;
    }
    let (quotes, len) = match read_value(from_value) {
        Some(found) => found,
        None => {
            return None;
        },
    };
    let from_spec = skip(from_value, quotes);
    let spec_text = take(from_spec, len);
    proof {
        lemma_key_fits(line@, body@, name@);
        lemma_span(line@, CharClass::Space);
        lemma_span(rest@, CharClass::Space);
        assert(from_spec@ =~= line@.skip(line@.len() - from_spec@.len()));
        lemma_suffix_bytes(line@, from_spec@, len as int);
    }
    let name_from: usize = if body[0] == '"' || body[0] == '\'' {
        body.len() - 1
    } else {
        body.len()
    };
    let name_chars = chars_of(name.as_str());
    let name_at: usize = column(line, name_from);
    let spec_at: usize = column(line, from_spec.len());
    Some(
        (
            name,
            columns(name_at, bytes_in(name_chars.as_slice())),
            text_of(spec_text),
            columns(spec_at, bytes_in(spec_text)),
        ),
    )
}

/// A key is the beginning of what its line holds from the key on.
pub proof fn lemma_key_prefix(body: Seq<char>, name: Seq<char>)
    requires
        key_of(body) == Some(name),
    ensures
        name.len() <= from_key(body).len(),
        name == from_key(body).take(name.len() as int),
{
    if is_quoted(body) {
        lemma_span(body.skip(1), CharClass::Except(body[0]));
    } else {
        lemma_span(body, CharClass::Except(':'));
        let parts = cut(body, ':')->0;
        let key = parts.0;
        lemma_trim_end(key);
        assert(key.take(name.len() as int) =~= body.take(name.len() as int));
    }
}

proof fn lemma_key_fits(line: Seq<char>, body: Seq<char>, name: Seq<char>)
    requires
        body == trim_start(line),
        key_of(body) == Some(name),
    ensures
        column_of(line, from_key(body)) + byte_len(name) <= byte_len(line),
{
    lemma_key_prefix(body, name);
    lemma_span(line, CharClass::Space);
    let rest = from_key(body);
    assert(rest =~= line.skip(line.len() - rest.len()));
    lemma_suffix_bytes(line, rest, name.len() as int);
}

/// Parses a line `key: value` of a catalog: the key, its columns, the value and
/// its columns. There is none for a key without a value, such as the head of a
/// named catalog.
pub fn parse_yaml_entry(line: &str) -> (r: Option<(String, Range<u32>, String, Range<u32>)>)
    ensures
        entry_shows(r, yaml_entry(line@)),
{
    let chars = chars_of(line);
    read_yaml_entry(chars.as_slice())
}

/// The dependencies in the catalogs of a `pnpm-workspace.yaml`, in the order of its lines.
pub fn parse_pnpm_catalogs(text: &str) -> (r: Vec<Dependency>)
    ensures
        dep_views(r@) == catalog_deps(text@),
{
    let all = lines_of(text);
    let mut deps: Vec<Dependency> = Vec::new();
    let mut mode = Mode::Outside;
    let mut catalog: Option<String> = None;
    let mut row: usize = 0;
    proof {
        assert(views(all@).take(0) =~= seq![]);
        assert(dep_views(deps@) =~= seq![]);
    }
    while row < all.len()
        invariant
            row <= all@.len(),
            views(all@) == lines(text@),
            catalog_scan(views(all@).take(row as int)) == (CatalogScan {
                deps: dep_views(deps@),
                mode,
                catalog: match catalog {
                    Some(c) => Some(c@),
                    None => None,
                },
            }),
        decreases all@.len() - row,
    {
        let chars = chars_of(all[row].as_str());
        let line = chars.as_slice();
        let ghost before = dep_views(deps@);
        proof {
            assert(views(all@).take(row + 1).drop_last() =~= views(all@).take(row as int));
            assert(views(all@).take(row + 1).last() == line@);
        }
        let body = trimmed_start(line);
        if body.len() > 0 && body[0] != '#' {
            let indent: usize = column(line, body.len());
            if indent == 0 {
                catalog = None;
                mode = match read_key(body) {
                    Some(key) => if same_text(key.as_str(), "catalog") {
                        Mode::DefaultCatalog
                    } else if same_text(key.as_str(), "catalogs") {
                        Mode::NamedCatalogs
                    } else {
                        Mode::Outside
                    },
                    None => Mode::Outside,
                };
            } else {
                match mode {
                    Mode::DefaultCatalog => {
                        if let Some((name, name_cols, spec_text, value_cols)) = read_yaml_entry(
                            line,
                        ) {
                            deps.push(
                                Dependency {
                                    name,
                                    spec: spec_text,
                                    context: "catalog".to_string(),
                                    row: row as u32,
                                    indent: indent as u32,
                                    name_cols,
                                    value_cols,
                                },
                            );
                            proof {
                                assert(dep_views(deps@) =~= before.push(deps@.last()@));
                            }
                        }
                    },
                    Mode::NamedCatalogs => match read_yaml_entry(line) {
                        Some((name, name_cols, spec_text, value_cols)) => {
                            if let Some(ref named) = catalog {
                                let mut context = "catalogs.".to_string();
                                context.append(named.as_str());
                                deps.push(
                                    Dependency {
                                        name,
                                        spec: spec_text,
                                        context,
                                        row: row as u32,
                                        indent: indent as u32,
                                        name_cols,
                                        value_cols,
                                    },
                                );
                                proof {
                                    assert(dep_views(deps@) =~= before.push(deps@.last()@));
                                }
                            }
                        },
                        None => {
                            if let Some(key) = read_key(body) {
                                catalog = Some(key);
                            }
                        },
                    },
                    Mode::Outside => {},
                }
            }
        }
        row += 1;
    }
    proof {
        assert(views(all@).take(row as int) =~= views(all@));
    }
    deps
}

} // verus!
