//! Where the entries that a file lists stand.
use crate::blocks::distinct_deps;
use crate::catalogs::{catalog_scan, yaml_entry, CatalogScan, Mode};
use crate::json_line::{brace_balance, outside_strings};
use crate::manifest::{
    first_under_point, indent_of, listed, placed, touches, under_point, DependencyView, Entry,
    LensFile,
};
use crate::package_json::{
    depth_at, is_direct, json_entry, json_scan, opened_section, opens_section, package_json_deps,
    stays_open,
};
use crate::rewrite::{law_json_columns, slice_of};
use crate::rewrite_yaml::law_yaml_columns;
use crate::text::{byte_len, lemma_byte_len_split, lemma_span, lines, span, trim_start, CharClass};
use vstd::prelude::*;

verus! {

/// Whether the rows and byte columns of a text can be counted in 32 bits.
pub open spec fn fits(text: Seq<char>) -> bool {
    &&& lines(text).len() <= u32::MAX
    &&& forall|i: int|
        0 <= i < lines(text).len() ==> byte_len(#[trigger] lines(text)[i]) <= u32::MAX
}

/// What the first lines of a `package.json` list stays listed.
pub proof fn lemma_json_grows(all: Seq<Seq<char>>, k: int)
    requires
        0 <= k <= all.len(),
    ensures
        json_scan(all.take(k)).deps.len() <= json_scan(all).deps.len(),
        json_scan(all.take(k)).deps == json_scan(all).deps.take(
            json_scan(all.take(k)).deps.len() as int,
        ),
    decreases all.len(),
{
    let n = json_scan(all.take(k)).deps.len() as int;
    if k == all.len() {
        assert(all.take(k) =~= all);
        assert(json_scan(all).deps.take(n) =~= json_scan(all).deps);
    } else {
        assert(all.drop_last().take(k) =~= all.take(k));
        lemma_json_grows(all.drop_last(), k);
        assert(json_scan(all).deps.take(n) =~= json_scan(all.drop_last()).deps.take(n));
    }
}

/// Whether a row of a `package.json` holds the entry that is listed in place `i`.
pub open spec fn json_row(all: Seq<Seq<char>>, i: int, row: int) -> bool {
    let before = json_scan(all.take(row));
    &&& 0 <= row < all.len()
    &&& json_entry(all[row]) is Some
    &&& before.section is Some
    &&& is_direct(before.depth, all[row], before.inside)
    &&& before.deps.len() == i
    &&& 0 <= i < json_scan(all).deps.len()
    &&& json_scan(all).deps[i] == placed(
        json_entry(all[row])->0,
        before.section->0,
        row as nat,
        indent_of(all[row]),
    )
}

/// What a `package.json` lists stands in a row.
pub proof fn lemma_json_row(all: Seq<Seq<char>>, i: int) -> (row: int)
    requires
        0 <= i < json_scan(all).deps.len(),
    ensures
        json_row(all, i, row),
    decreases all.len(),
{
    let before = json_scan(all.drop_last());
    assert(all.take(all.len() - 1) =~= all.drop_last());
    if i < before.deps.len() {
        let row = lemma_json_row(all.drop_last(), i);
        assert(all.drop_last().take(row) =~= all.take(row));
        row
    } else {
        all.len() - 1
    }
}

/// The catalog that an indented line lies in.
pub open spec fn catalog_context(st: CatalogScan) -> Option<Seq<char>> {
    match (st.mode, st.catalog) {
        (Mode::DefaultCatalog, _) => Some("catalog"@),
        (Mode::NamedCatalogs, Some(catalog)) => Some("catalogs."@ + catalog),
        _ => None,
    }
}

/// Whether a row of a `pnpm-workspace.yaml` holds the entry that is listed in place `i`.
pub open spec fn catalog_row(all: Seq<Seq<char>>, i: int, row: int) -> bool {
    let before = catalog_scan(all.take(row));
    &&& 0 <= row < all.len()
    &&& trim_start(all[row]).len() > 0
    &&& trim_start(all[row])[0] != '#'
    &&& indent_of(all[row]) != 0
    &&& yaml_entry(all[row]) is Some
    &&& catalog_context(before) is Some
    &&& before.deps.len() == i
    &&& 0 <= i < catalog_scan(all).deps.len()
    &&& catalog_scan(all).deps[i] == placed(
        yaml_entry(all[row])->0,
        catalog_context(before)->0,
        row as nat,
        indent_of(all[row]),
    )
}

/// What the first lines of a `pnpm-workspace.yaml` list stays listed.
pub proof fn lemma_catalog_grows(all: Seq<Seq<char>>, k: int)
    requires
        0 <= k <= all.len(),
    ensures
        catalog_scan(all.take(k)).deps.len() <= catalog_scan(all).deps.len(),
        catalog_scan(all.take(k)).deps == catalog_scan(all).deps.take(
            catalog_scan(all.take(k)).deps.len() as int,
        ),
    decreases all.len(),
{
    let n = catalog_scan(all.take(k)).deps.len() as int;
    if k == all.len() {
        assert(all.take(k) =~= all);
        assert(catalog_scan(all).deps.take(n) =~= catalog_scan(all).deps);
    } else {
        assert(all.drop_last().take(k) =~= all.take(k));
        lemma_catalog_grows(all.drop_last(), k);
        assert(catalog_scan(all).deps.take(n) =~= catalog_scan(all.drop_last()).deps.take(n));
    }
}

/// What a `pnpm-workspace.yaml` lists stands in a row.
pub proof fn lemma_catalog_row(all: Seq<Seq<char>>, i: int) -> (row: int)
    requires
        0 <= i < catalog_scan(all).deps.len(),
    ensures
        catalog_row(all, i, row),
    decreases all.len(),
{
    let before = catalog_scan(all.drop_last());
    assert(all.take(all.len() - 1) =~= all.drop_last());
    if i < before.deps.len() {
        let row = lemma_catalog_row(all.drop_last(), i);
        assert(all.drop_last().take(row) =~= all.take(row));
        row
    } else {
        all.len() - 1
    }
}

/// The row that the entry in place `i` stands in, and the entry.
pub open spec fn stands(text: Seq<char>, kind: LensFile, i: int, row: int, e: Entry) -> bool {
    let all = lines(text);
    match kind {
        LensFile::PackageJson => json_row(all, i, row) && json_entry(all[row]) == Some(e),
        LensFile::PnpmWorkspace => catalog_row(all, i, row) && yaml_entry(all[row]) == Some(e),
    }
}

proof fn lemma_indent_bound(line: Seq<char>)
    ensures
        indent_of(line) <= byte_len(line),
{
    lemma_span(line, CharClass::Space);
    let k = span(line, CharClass::Space) as int;
    assert(line.take(line.len() - trim_start(line).len()) =~= line.take(k));
    lemma_byte_len_split(line, k);
}

/// An entry that is listed stands in a row, in the columns that it has.
pub proof fn lemma_stands(text: Seq<char>, kind: LensFile, i: int) -> (r: (int, Entry))
    requires
        fits(text),
        0 <= i < listed(text, kind).len(),
    ensures
        stands(text, kind, i, r.0, r.1),
        ({
            let dep = listed(text, kind)[i];
            let (row, e) = r;
            let line = lines(text)[row];
            &&& 0 <= row < lines(text).len()
            &&& dep.row == row
            &&& dep.name == e.name
            &&& dep.spec == e.spec
            &&& dep.indent == indent_of(line)
            &&& dep.name_cols.start == e.name_at
            &&& dep.name_cols.end == e.name_at + byte_len(e.name)
            &&& dep.value_cols.start == e.spec_at
            &&& dep.value_cols.end == e.spec_at + byte_len(e.spec)
            &&& dep.value_cols.end <= byte_len(line)
            &&& slice_of(line, e.name_at, e.name_at + byte_len(e.name)) == e.name
            &&& slice_of(line, e.spec_at, e.spec_at + byte_len(e.spec)) == e.spec
        }),
{
    let all = lines(text);
    match kind {
        LensFile::PackageJson => {
            let row = lemma_json_row(all, i);
            let line = all[row];
            law_json_columns(line);
            lemma_indent_bound(line);
            assert(byte_len(all[row]) <= u32::MAX);
            (row, json_entry(line)->0)
        },
        LensFile::PnpmWorkspace => {
            let row = lemma_catalog_row(all, i);
            let line = all[row];
            law_yaml_columns(line);
            lemma_indent_bound(line);
            assert(byte_len(all[row]) <= u32::MAX);
            (row, yaml_entry(line)->0)
        },
    }
}

/// The columns of every entry that a file lists are those of its name and of its
/// version text in its row, and its indentation is that of the row.
pub proof fn law_columns(text: Seq<char>, kind: LensFile, i: int)
    requires
        fits(text),
        0 <= i < listed(text, kind).len(),
    ensures
        ({
            let dep = listed(text, kind)[i];
            let line = lines(text)[dep.row as int];
            &&& dep.row < lines(text).len()
            &&& slice_of(line, dep.name_cols.start as nat, dep.name_cols.end as nat) == dep.name
            &&& slice_of(line, dep.value_cols.start as nat, dep.value_cols.end as nat) == dep.spec
            &&& dep.indent == indent_of(line)
        }),
{
    let (row, e) = lemma_stands(text, kind, i);
}

/// Whether the rows of a text can be counted in 32 bits.
pub open spec fn rows_fit(text: Seq<char>) -> bool {
    lines(text).len() <= u32::MAX
}

/// The row of an entry.
proof fn lemma_row(text: Seq<char>, kind: LensFile, i: int) -> (row: int)
    requires
        0 <= i < listed(text, kind).len(),
    ensures
        match kind {
            LensFile::PackageJson => json_row(lines(text), i, row),
            LensFile::PnpmWorkspace => catalog_row(lines(text), i, row),
        },
        listed(text, kind)[i].row == row as u32,
{
    match kind {
        LensFile::PackageJson => lemma_json_row(lines(text), i),
        LensFile::PnpmWorkspace => lemma_catalog_row(lines(text), i),
    }
}

/// Entries stand in rows from top to bottom, each in a row of its own.
pub proof fn law_rows(text: Seq<char>, kind: LensFile, i: int, j: int)
    requires
        rows_fit(text),
        0 <= i < j < listed(text, kind).len(),
    ensures
        listed(text, kind)[i].row < listed(text, kind)[j].row,
{
    let all = lines(text);
    let a = lemma_row(text, kind, i);
    let b = lemma_row(text, kind, j);
    if b <= a {
        match kind {
            LensFile::PackageJson => {
                lemma_json_grows(all.take(a), b);
                assert(all.take(a).take(b) =~= all.take(b));
            },
            LensFile::PnpmWorkspace => {
                lemma_catalog_grows(all.take(a), b);
                assert(all.take(a).take(b) =~= all.take(b));
            },
        }
    }
}

/// What is found at a place is the first entry whose name or version text is there, and
/// nothing is found only where there is no such entry.
pub proof fn law_found(deps: Seq<DependencyView>, row: u32, col: u32)
    ensures
        match first_under_point(deps, row, col) {
            Some(dep) => exists|i: int|
                0 <= i < deps.len() && #[trigger] deps[i] == dep && under_point(dep, row, col)
                    && forall|k: int| 0 <= k < i ==> !under_point(#[trigger] deps[k], row, col),
            None => forall|i: int|
                0 <= i < deps.len() ==> !under_point(#[trigger] deps[i], row, col),
        },
    decreases deps.len(),
{
    if deps.len() > 0 && !under_point(deps[0], row, col) {
        let rest = deps.drop_first();
        law_found(rest, row, col);
        assert forall|k: int| 0 < k < deps.len() implies #[trigger] deps[k] == rest[k - 1] by {}
        if first_under_point(rest, row, col) is Some {
            let dep = first_under_point(rest, row, col)->0;
            let i = choose|i: int|
                0 <= i < rest.len() && #[trigger] rest[i] == dep && under_point(dep, row, col)
                    && forall|k: int| 0 <= k < i ==> !under_point(#[trigger] rest[k], row, col);
            assert(deps[i + 1] == dep);
            assert forall|k: int| 0 <= k < i + 1 implies !under_point(#[trigger] deps[k], row, col) by {
                if k > 0 {
                    assert(!under_point(rest[k - 1], row, col));
                }
            }
        }
    } else if deps.len() > 0 {
        assert(deps[0] == first_under_point(deps, row, col)->0);
    }
}

/// The entry at the name or the version text of which the pointer is, is the one that
/// is found there.
pub proof fn law_under_point(text: Seq<char>, kind: LensFile, i: int, col: u32)
    requires
        rows_fit(text),
        0 <= i < listed(text, kind).len(),
        touches(listed(text, kind)[i].name_cols, col) || touches(
            listed(text, kind)[i].value_cols,
            col,
        ),
    ensures
        first_under_point(listed(text, kind), listed(text, kind)[i].row, col) == Some(
            listed(text, kind)[i],
        ),
{
    let deps = listed(text, kind);
    let row = deps[i].row;
    law_found(deps, row, col);
    assert(under_point(deps[i], row, col));
    let dep = first_under_point(deps, row, col)->0;
    let k = choose|k: int|
        0 <= k < deps.len() && #[trigger] deps[k] == dep && under_point(dep, row, col)
            && forall|m: int| 0 <= m < k ==> !under_point(#[trigger] deps[m], row, col);
    if k < i {
        law_rows(text, kind, k, i);
    } else if i < k {
        law_rows(text, kind, i, k);
    }
}

/// The nesting of braces after some lines.
pub open spec fn nesting_after(all: Seq<Seq<char>>) -> int
    decreases all.len(),
{
    if all.len() == 0 {
        0
    } else {
        nesting_after(all.drop_last()) + brace_balance(outside_strings(all.last()))
    }
}

/// Whether a line opens a section in the outermost object, or in none.
pub open spec fn opens(all: Seq<Seq<char>>, row: int, context: Seq<char>) -> bool {
    place_of(all, row) <= 1 && opened_section(all[row]) == Some(context)
}

/// The nesting at the first string of a line.
pub open spec fn place_of(all: Seq<Seq<char>>, row: int) -> int {
    depth_at(nesting_after(all.take(row)), all[row])
}

/// Whether the object with the nesting `inside` in it that two lines begin in is the same
/// one: it is not closed in any line from the first to before the second.
pub open spec fn same_object(all: Seq<Seq<char>>, from: int, to: int, inside: int) -> bool {
    forall|t: int|
        from <= t < to ==> stays_open(nesting_after(all.take(t)), #[trigger] all[t], inside)
}

/// Whether the first string of a line stands directly in the object with the nesting
/// `inside` in it that the line begins in.
pub open spec fn stands_in(all: Seq<Seq<char>>, row: int, inside: int) -> bool {
    is_direct(nesting_after(all.take(row)), all[row], inside)
}

/// Whether the first string of a line stands in the section that the line `from` opens,
/// and in no object inside it.
pub open spec fn in_section(
    all: Seq<Seq<char>>,
    from: int,
    row: int,
    context: Seq<char>,
) -> bool {
    &&& 0 <= from < row < all.len()
    &&& opens(all, from, context)
    &&& same_object(all, from + 1, row, place_of(all, from) + 1)
    &&& stands_in(all, row, place_of(all, from) + 1)
}

pub proof fn lemma_depth(all: Seq<Seq<char>>)
    ensures
        json_scan(all).depth == nesting_after(all),
    decreases all.len(),
{
    if all.len() > 0 {
        lemma_depth(all.drop_last());
    }
}

/// A section that is open was opened in the outermost object, or in none, and never
/// closed since.
pub proof fn lemma_open_section(all: Seq<Seq<char>>) -> (from: int)
    requires
        json_scan(all).section is Some,
    ensures
        0 <= from < all.len(),
        opens(all, from, json_scan(all).section->0),
        json_scan(all).inside == place_of(all, from) + 1,
        same_object(all, from + 1, all.len() as int, json_scan(all).inside),
        opens_section(json_scan(all.take(from)), all[from]),
    decreases all.len(),
{
    let rest = all.drop_last();
    let before = json_scan(rest);
    lemma_depth(rest);
    assert(all.take(all.len() - 1) =~= rest);
    if opens_section(before, all.last()) {
        all.len() - 1
    } else {
        let inside = before.inside;
        let from = lemma_open_section(rest);
        assert(rest.take(from) =~= all.take(from));
        assert(rest[from] == all[from]);
        assert forall|t: int| from + 1 <= t < all.len() implies stays_open(
            nesting_after(all.take(t)),
            #[trigger] all[t],
            inside,
        ) by {
            if t < rest.len() {
                assert(rest.take(t) =~= all.take(t));
                assert(rest[t] == all[t]);
            }
        }
        from
    }
}

/// Every entry that a `package.json` lists stands directly in a section of the outermost
/// object, or of none, and has the name of that section for its context.
pub proof fn law_sections(text: Seq<char>, i: int) -> (r: (int, int))
    requires
        0 <= i < package_json_deps(text).len(),
    ensures
        ({
            let all = lines(text);
            let dep = package_json_deps(text)[i];
            let (from, row) = r;
            &&& in_section(all, from, row, dep.context)
            &&& opens_section(json_scan(all.take(from)), all[from])
            &&& json_entry(all[row]) matches Some(e) && dep == placed(
                e,
                dep.context,
                row as nat,
                indent_of(all[row]),
            )
            &&& json_row(all, i, row)
        }),
{
    let all = lines(text);
    let row = lemma_json_row(all, i);
    let upto = all.take(row);
    let from = lemma_open_section(upto);
    lemma_depth(upto);
    assert(upto.take(from) =~= all.take(from));
    assert(upto[from] == all[from]);
    let inside = json_scan(upto).inside;
    assert forall|t: int| from + 1 <= t < row implies stays_open(
        nesting_after(all.take(t)),
        #[trigger] all[t],
        inside,
    ) by {
        assert(upto.take(t) =~= all.take(t));
        assert(upto[t] == all[t]);
    }
    (from, row)
}

/// Whether two lines hold entries of one name directly in the same object.
pub open spec fn key_again(all: Seq<Seq<char>>, a: int, b: int, inside: int) -> bool {
    &&& same_object(all, a, b, inside)
    &&& stands_in(all, a, inside)
    &&& stands_in(all, b, inside)
    &&& json_entry(all[a]) matches Some(x) && json_entry(all[b]) matches Some(y) && x.name
        == y.name
}

/// Whether a `package.json` opens no section twice in its outermost object, and none of
/// its objects holds two entries of one name.
pub open spec fn no_key_twice(all: Seq<Seq<char>>) -> bool {
    &&& forall|a: int, b: int, key: Seq<char>|
        0 <= a < b < all.len() && #[trigger] opens(all, a, key) ==> !#[trigger] opens(all, b, key)
    &&& forall|a: int, b: int, inside: int|
        0 <= a < b < all.len() ==> !#[trigger] key_again(all, a, b, inside)
}

/// Context and name tell the entries of a `package.json` apart, if none of its objects
/// has a key twice.
pub proof fn law_distinct_entries(text: Seq<char>)
    requires
        no_key_twice(lines(text)),
    ensures
        distinct_deps(package_json_deps(text)),
{
    let all = lines(text);
    let deps = package_json_deps(text);
    assert forall|i: int, j: int| 0 <= i < j < deps.len() implies (#[trigger] deps[i]).context != (
    #[trigger] deps[j]).context || deps[i].name != deps[j].name by {
        let (f, a) = law_sections(text, i);
        let (g, b) = law_sections(text, j);
        if b <= a {
            lemma_json_grows(all.take(a), b);
            assert(all.take(a).take(b) =~= all.take(b));
        }
        assert(a < b);
        if deps[i].context == deps[j].context {
            if f < g {
                assert(opens(all, f, deps[i].context) && opens(all, g, deps[i].context));
            } else if g < f {
                assert(opens(all, g, deps[i].context) && opens(all, f, deps[i].context));
            }
            let inside = place_of(all, f) + 1;
            assert(same_object(all, a, b, inside));
            assert(!key_again(all, a, b, inside));
        }
    }
}

} // verus!
