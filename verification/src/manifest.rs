//! The dependency entries of the files that carry lenses.
use crate::catalogs::{catalog_deps, parse_pnpm_catalogs};
use crate::package_json::{package_json_deps, parse_package_json};
use crate::text::{byte_len, bytes_in, lemma_byte_len_split, same_text, take, trim_start};
use std::ops::Range;
use vstd::prelude::*;

verus! {

pub const PACKAGE_JSON: &'static str = "package.json";

pub const PNPM_WORKSPACE: &'static str = "pnpm-workspace.yaml";

/// The files that carry lenses.
#[derive(Clone, Copy, Debug, PartialEq, Eq, Structural)]
pub enum LensFile {
    PackageJson,
    PnpmWorkspace,
}

/// Which lens file a file name stands for, if any.
pub open spec fn kind_of(name: Seq<char>) -> Option<LensFile> {
    if name == PACKAGE_JSON@ {
        Some(LensFile::PackageJson)
    } else if name == PNPM_WORKSPACE@ {
        Some(LensFile::PnpmWorkspace)
    } else {
        None
    }
}

pub fn file_kind(name: &str) -> (r: Option<LensFile>)
    ensures
        r == kind_of(name@),
{
    if same_text(name, PACKAGE_JSON) {
        Some(LensFile::PackageJson)
    } else if same_text(name, PNPM_WORKSPACE) {
        Some(LensFile::PnpmWorkspace)
    } else {
        None
    }
}

/// A dependency entry. `context` is the section it lives in: a section of a
/// `package.json` (`dependencies`, ...) or a catalog (`catalog`,
/// `catalogs.<name>`). With `name` it tells entries apart: one package can stand
/// in several catalogs.
#[derive(Debug)]
pub struct Dependency {
    pub name: String,
    pub spec: String,
    pub context: String,
    pub row: u32,
    pub indent: u32,
    /// Byte columns of the package name in its row, for hover detection.
    pub name_cols: Range<u32>,
    /// Byte columns of the version text in its row, for rewriting it.
    pub value_cols: Range<u32>,
}

/// What a [`Dependency`] says.
#[verifier::ext_equal]
pub struct DependencyView {
    pub name: Seq<char>,
    pub spec: Seq<char>,
    pub context: Seq<char>,
    pub row: u32,
    pub indent: u32,
    pub name_cols: Range<u32>,
    pub value_cols: Range<u32>,
}

impl View for Dependency {
    type V = DependencyView;

    open spec fn view(&self) -> DependencyView {
        DependencyView {
            name: self.name@,
            spec: self.spec@,
            context: self.context@,
            row: self.row,
            indent: self.indent,
            name_cols: self.name_cols,
            value_cols: self.value_cols,
        }
    }
}

/// What each of the entries says.
pub open spec fn dep_views(deps: Seq<Dependency>) -> Seq<DependencyView> {
    Seq::new(deps.len(), |i: int| deps[i]@)
}

/// The byte column at which the end `rest` of `line` begins.
pub open spec fn column_of(line: Seq<char>, rest: Seq<char>) -> nat {
    byte_len(line.take(line.len() - rest.len()))
}

/// A name and a version text in one line, each with the byte column at which it begins.
#[verifier::ext_equal]
pub struct Entry {
    pub name: Seq<char>,
    pub name_at: nat,
    pub spec: Seq<char>,
    pub spec_at: nat,
}

impl Entry {
    pub open spec fn name_cols(self) -> Range<u32> {
        Range { start: self.name_at as u32, end: (self.name_at + byte_len(self.name)) as u32 }
    }

    pub open spec fn value_cols(self) -> Range<u32> {
        Range { start: self.spec_at as u32, end: (self.spec_at + byte_len(self.spec)) as u32 }
    }
}

/// The dependency that an entry in the given place is.
pub open spec fn placed(e: Entry, context: Seq<char>, row: nat, indent: nat) -> DependencyView {
    DependencyView {
        name: e.name,
        spec: e.spec,
        context,
        row: row as u32,
        indent: indent as u32,
        name_cols: e.name_cols(),
        value_cols: e.value_cols(),
    }
}

/// The byte column of the first character of a line that is not white space.
pub open spec fn indent_of(line: Seq<char>) -> nat {
    column_of(line, trim_start(line))
}

/// Whether what was read from a line is the entry it holds.
pub open spec fn entry_shows(
    r: Option<(String, Range<u32>, String, Range<u32>)>,
    e: Option<Entry>,
) -> bool {
    match (r, e) {
        (Some((name, name_cols, spec_text, value_cols)), Some(e)) => {
            &&& name@ == e.name
            &&& name_cols == e.name_cols()
            &&& spec_text@ == e.spec
            &&& value_cols == e.value_cols()
        },
        (None, None) => true,
        _ => false,
    }
}

/// The start of an end of a line lies, with its bytes before it, within the line.
pub proof fn lemma_suffix_bytes(line: Seq<char>, rest: Seq<char>, k: int)
    requires
        rest.len() <= line.len(),
        rest == line.skip(line.len() - rest.len()),
        0 <= k <= rest.len(),
    ensures
        column_of(line, rest) + byte_len(rest.take(k)) <= byte_len(line),
{
    lemma_byte_len_split(line, line.len() - rest.len());
    lemma_byte_len_split(rest, k);
}

/// The byte column at which the last `rest` characters of `line` begin.
pub(crate) fn column(line: &[char], rest: usize) -> (r: usize)
    requires
        rest <= line@.len(),
        byte_len(line@) <= usize::MAX,
    ensures
        r == byte_len(line@.take(line@.len() - rest)),
        r <= byte_len(line@),
{
    let head = take(line, line.len() - rest);
    proof {
        lemma_byte_len_split(line@, line@.len() - rest);
    }
    bytes_in(head)
}

/// A column range from a byte offset and a length in bytes.
pub(crate) fn columns(start: usize, len: usize) -> (r: Range<u32>)
    requires
        start + len <= usize::MAX,
    ensures
        r == (Range { start: start as u32, end: (start + len) as u32 }),
{
    Range { start: start as u32, end: (start + len) as u32 }
}

/// The dependencies that the text of a lens file lists.
pub open spec fn listed(text: Seq<char>, kind: LensFile) -> Seq<DependencyView> {
    match kind {
        LensFile::PackageJson => package_json_deps(text),
        LensFile::PnpmWorkspace => catalog_deps(text),
    }
}

pub fn parse_deps(text: &str, kind: LensFile) -> (r: Vec<Dependency>)
    ensures
        dep_views(r@) == listed(text@, kind),
{
    match kind {
        LensFile::PackageJson => parse_package_json(text),
        LensFile::PnpmWorkspace => parse_pnpm_catalogs(text),
    }
}

/// Whether a column lies in a range or right behind it.
pub open spec fn touches(range: Range<u32>, col: u32) -> bool {
    range.start <= col <= range.end
}

pub fn range_contains(range: &Range<u32>, col: u32) -> (r: bool)
    ensures
        r == touches(*range, col),
{
    col >= range.start && col <= range.end
}

/// Whether the pointer is at the name or at the version text of the entry.
pub open spec fn under_point(dep: DependencyView, row: u32, col: u32) -> bool {
    dep.row == row && (touches(dep.name_cols, col) || touches(dep.value_cols, col))
}

/// The first of the entries at the given place.
pub open spec fn first_under_point(
    deps: Seq<DependencyView>,
    row: u32,
    col: u32,
) -> Option<DependencyView>
    decreases deps.len(),
{
    if deps.len() == 0 {
        None
    } else if under_point(deps[0], row, col) {
        Some(deps[0])
    } else {
        first_under_point(deps.drop_first(), row, col)
    }
}

/// Finds the dependency whose name or version text spans column `col` on `row`:
/// its package name and the columns of the name.
pub fn package_at_point(text: &str, kind: LensFile, row: u32, col: u32) -> (r: Option<
    (String, Range<u32>),
>)
    ensures
        match first_under_point(listed(text@, kind), row, col) {
            Some(dep) => r matches Some((name, cols)) && name@ == dep.name && cols
                == dep.name_cols,
            None => r is None,
        },
{
    let deps = parse_deps(text, kind);
    let ghost all = dep_views(deps@);
    let mut i: usize = 0;
    proof {
        assert(all.skip(0) =~= all);
    }
    while i < deps.len()
        invariant
            i <= deps@.len(),
            all == dep_views(deps@),
            all == listed(text@, kind),
            first_under_point(all, row, col) == first_under_point(all.skip(i as int), row, col),
        decreases deps@.len() - i,
    {
        let dep = &deps[i];
        proof {
            assert(all.skip(i as int)[0] == dep@);
            assert(all.skip(i as int).drop_first() =~= all.skip(i + 1));
        }
        if dep.row == row && (range_contains(&dep.name_cols, col) || range_contains(
            &dep.value_cols,
            col,
        )) {
            return Some(
                (
                    dep.name.clone(),
                    Range { start: dep.name_cols.start, end: dep.name_cols.end },
                ),
            );
        }
        i += 1;
    }
    None
}

} // verus!
