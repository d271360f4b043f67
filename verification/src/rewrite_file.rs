//! What rewriting a version does to the file it stands in.
use crate::catalogs::{catalog_scan, catalog_step, yaml_entry, CatalogScan};
use crate::edit::{first_named, lemma_range_prefix, range_prefix, rewritten, version_edit, EditView};
use crate::json_line::{is_inside, lemma_inside_rewritten, outside_strings};
use crate::listing::{
    catalog_context, catalog_row, fits, json_row, lemma_catalog_grows, lemma_json_grows,
    lemma_stands,
};
use crate::manifest::{indent_of, listed, placed, DependencyView, LensFile};
use crate::package_json::{json_entry, json_scan, lead_of, JsonScan};
use crate::rewrite::{law_json_line_rewrite, lemma_json_spec, lemma_slice_lacks, spliced, with_spec};
use crate::rewrite_spec::{law_rewrite_again, law_rewrite_reads_back, lemma_version_chars};
use crate::rewrite_yaml::{law_yaml_line_rewrite, lemma_can_rewrite};
use crate::text::{
    byte_len, byte_width, chomp, cut, fitting, lacks, lemma_byte_len_char, lemma_byte_len_concat,
    lemma_cut_made, lemma_cut_parts, lemma_fitting, lemma_span, lines, span, trim_start, CharClass,
};
use crate::version::{
    is_identifier_char, range_version, release, version_text, well_formed, VersionView,
};
use std::ops::Range;
use vstd::prelude::*;

verus! {

/// A text with the part of a row between two byte columns replaced.
pub open spec fn edited(text: Seq<char>, row: nat, start: nat, end: nat, new: Seq<char>) -> Seq<char>
    decreases row,
{
    match cut(text, '\n') {
        Some((line, rest)) => if row == 0 {
            spliced(line, start, end, new) + seq!['\n'] + rest
        } else {
            line + seq!['\n'] + edited(rest, (row - 1) as nat, start, end, new)
        },
        None => if row == 0 {
            spliced(text, start, end, new)
        } else {
            text
        },
    }
}

/// What fits into the bytes of a beginning fits into that beginning.
proof fn lemma_fitting_concat(a: Seq<char>, b: Seq<char>, cap: nat)
    requires
        cap <= byte_len(a),
    ensures
        fitting(a + b, cap) == fitting(a, cap),
        fitting(a, cap) <= a.len(),
    decreases a.len(),
{
    let s = a + b;
    if a.len() == 0 {
        assert(byte_len(a) == 0) by {
            assert(a =~= seq![]);
        }
        if b.len() > 0 {
            lemma_byte_len_char(b[0]);
            assert(s[0] == b[0]);
        }
    } else {
        lemma_byte_len_char(a[0]);
        assert(a =~= seq![a[0]] + a.drop_first());
        lemma_byte_len_concat(seq![a[0]], a.drop_first());
        assert(s[0] == a[0]);
        assert(s.drop_first() =~= a.drop_first() + b);
        if byte_width(a[0]) <= cap {
            lemma_fitting_concat(a.drop_first(), b, (cap - byte_width(a[0])) as nat);
        }
    }
}

/// Replacing a part of a line leaves what follows the line.
proof fn lemma_spliced_front(line: Seq<char>, tail: Seq<char>, start: nat, end: nat, new: Seq<char>)
    requires
        start <= end <= byte_len(line),
    ensures
        spliced(line + tail, start, end, new) == spliced(line, start, end, new) + tail,
{
    lemma_fitting_concat(line, tail, start);
    lemma_fitting_concat(line, tail, end);
    let (i, j) = (fitting(line, start) as int, fitting(line, end) as int);
    let s = line + tail;
    assert(s.take(i) =~= line.take(i));
    assert(s.skip(j) =~= line.skip(j) + tail);
    assert(s.take(i) + new + (line.skip(j) + tail) =~= (line.take(i) + new + line.skip(j)) + tail);
}

/// A line with a part replaced by a text without line ends has no line ends either.
proof fn lemma_spliced_line(line: Seq<char>, start: nat, end: nat, new: Seq<char>)
    requires
        lacks(line, '\n'),
        lacks(new, '\n'),
        new.len() > 0,
        new.last() != '\r',
    ensures
        lacks(spliced(line, start, end, new), '\n'),
        spliced(line, start, end, new).len() > 0,
        line.len() > 0 && line.last() != '\r' || line.len() == 0 ==> spliced(
            line,
            start,
            end,
            new,
        ).last() != '\r',
{
    lemma_fitting(line, start);
    lemma_fitting(line, end);
    let (i, j) = (fitting(line, start) as int, fitting(line, end) as int);
    let s = spliced(line, start, end, new);
    assert forall|k: int| 0 <= k < s.len() implies #[trigger] s[k] != '\n' by {
        if k < i {
            assert(s[k] == line[k]);
        } else if k < i + new.len() {
            assert(s[k] == new[k - i]);
        } else {
            assert(s[k] == line[k - i - new.len() + j]);
        }
    }
    if j < line.len() {
        assert(s.last() == line.last());
    } else {
        assert(s.last() == new.last());
    }
}

/// Replacing a part of a row by a text without line ends changes that line alone.
proof fn lemma_edited_lines(text: Seq<char>, row: nat, start: nat, end: nat, new: Seq<char>)
    requires
        row < lines(text).len(),
        start <= end <= byte_len(lines(text)[row as int]),
        lacks(new, '\n'),
        new.len() > 0,
        new.last() != '\r',
    ensures
        lines(edited(text, row, start, end, new)) == lines(text).update(
            row as int,
            spliced(lines(text)[row as int], start, end, new),
        ),
    decreases row,
{
    let all = lines(text);
    let after = edited(text, row, start, end, new);
    match cut(text, '\n') {
        Some((first, rest)) => {
            lemma_cut_parts(text, '\n');
            assert(all == seq![chomp(first)] + lines(rest));
            if row == 0 {
                let line = chomp(first);
                assert(all[0] == line);
                let ending = first.skip(line.len() as int);
                assert(first =~= line + ending);
                lemma_spliced_front(line, ending, start, end, new);
                let new_line = spliced(line, start, end, new);
                let new_first = spliced(first, start, end, new);
                assert(lacks(line, '\n'));
                lemma_spliced_line(line, start, end, new);
                lemma_spliced_line(first, start, end, new);
                lemma_cut_made(new_first, '\n', rest);
                if first.len() > 0 && first.last() == '\r' {
                    assert(ending =~= seq!['\r']);
                    assert(new_first.last() == '\r');
                    assert(chomp(new_first) =~= new_line);
                } else {
                    assert(ending =~= seq![]);
                    assert(new_first =~= new_line);
                    assert(chomp(new_first) == new_line);
                }
                assert(lines(after) == seq![new_line] + lines(rest));
                assert(seq![new_line] + lines(rest) =~= all.update(0, new_line));
            } else {
                let less = (row - 1) as nat;
                assert(all[row as int] == lines(rest)[less as int]);
                lemma_edited_lines(rest, less, start, end, new);
                let new_rest = edited(rest, less, start, end, new);
                lemma_cut_made(first, '\n', new_rest);
                assert(lines(after) == seq![chomp(first)] + lines(new_rest));
                let new_line = spliced(all[row as int], start, end, new);
                assert(seq![chomp(first)] + lines(rest).update(less as int, new_line)
                    =~= all.update(row as int, new_line));
            }
        },
        None => {
            assert(all == seq![text]);
            assert(row == 0);
            lemma_span(text, CharClass::Except('\n'));
            assert(lacks(text, '\n')) by {
                assert forall|k: int| 0 <= k < text.len() implies #[trigger] text[k] != '\n' by {
                    assert(CharClass::Except('\n').has(text[k]));
                }
            }
            lemma_spliced_line(text, start, end, new);
            lemma_span(after, CharClass::Except('\n'));
            if cut(after, '\n') is Some {
                let k = span(after, CharClass::Except('\n')) as int;
                assert(after[k] == '\n');
            }
            assert(lines(after) == seq![after]);
            assert(seq![after] =~= all.update(0, after));
        },
    }
}

/// Another entry in a row, with the rest of the line that was there, takes the place of
/// the entry in the list and changes nothing else.
proof fn lemma_json_update(all: Seq<Seq<char>>, i: int, row: int, line: Seq<char>)
    requires
        json_row(all, i, row),
        json_entry(line) is Some,
        outside_strings(line) == outside_strings(all[row]),
        lead_of(line) == lead_of(all[row]),
    ensures
        json_scan(all.update(row, line)) == (JsonScan {
            deps: json_scan(all).deps.update(
                i,
                placed(
                    json_entry(line)->0,
                    json_scan(all.take(row)).section->0,
                    row as nat,
                    indent_of(line),
                ),
            ),
            ..json_scan(all)
        }),
    decreases all.len(),
{
    let new = all.update(row, line);
    let dep = placed(
        json_entry(line)->0,
        json_scan(all.take(row)).section->0,
        row as nat,
        indent_of(line),
    );
    assert(all.take(all.len() - 1) =~= all.drop_last());
    if row == all.len() - 1 {
        assert(new.drop_last() =~= all.drop_last());
        assert(json_scan(new).deps =~= json_scan(all).deps.update(i, dep));
    } else {
        lemma_json_grows(all.drop_last(), row + 1);
        let first = all.drop_last();
        assert(first.take(row) =~= all.take(row));
        let upto = all.take(row + 1);
        assert(first.take(row + 1) =~= upto);
        assert(upto.drop_last() =~= all.take(row));
        assert(json_scan(upto).deps.len() == i + 1);
        lemma_json_grows(all, all.len() - 1);
        assert(json_scan(first).deps[i] == json_scan(all).deps[i]);
        lemma_json_update(first, i, row, line);
        assert(new.drop_last() =~= first.update(row, line));
        assert(json_scan(new).deps =~= json_scan(all).deps.update(i, dep));
    }
}

/// What a line adds to the list does not depend on what is listed before it.
proof fn lemma_catalog_step(st: CatalogScan, deps: Seq<DependencyView>, line: Seq<char>, row: nat)
    ensures
        ({
            let a = catalog_step(st, line, row);
            let b = catalog_step(CatalogScan { deps, ..st }, line, row);
            &&& b.mode == a.mode && b.catalog == a.catalog
            &&& {
                ||| a.deps == st.deps && b.deps == deps
                ||| a.deps.len() == st.deps.len() + 1 && a.deps == st.deps.push(a.deps.last())
                    && b.deps == deps.push(a.deps.last())
            }
        }),
{
}

/// A line of a catalog adds the entry that it holds.
proof fn lemma_catalog_entry(st: CatalogScan, line: Seq<char>, row: nat)
    requires
        yaml_entry(line) is Some,
        catalog_context(st) is Some,
        trim_start(line).len() > 0,
        trim_start(line)[0] != '#',
        indent_of(line) != 0,
    ensures
        catalog_step(st, line, row) == (CatalogScan {
            deps: st.deps.push(
                placed(yaml_entry(line)->0, catalog_context(st)->0, row, indent_of(line)),
            ),
            ..st
        }),
{
}

/// Another entry in a row, with the indentation of the line that was there, takes the
/// place of the entry in the list and changes nothing else.
#[verifier::rlimit(30)]
proof fn lemma_catalog_update(all: Seq<Seq<char>>, i: int, row: int, line: Seq<char>)
    requires
        catalog_row(all, i, row),
        yaml_entry(line) is Some,
        trim_start(line).len() > 0,
        trim_start(line)[0] != '#',
        indent_of(line) != 0,
    ensures
        catalog_scan(all.update(row, line)) == (CatalogScan {
            deps: catalog_scan(all).deps.update(
                i,
                placed(
                    yaml_entry(line)->0,
                    catalog_context(catalog_scan(all.take(row)))->0,
                    row as nat,
                    indent_of(line),
                ),
            ),
            ..catalog_scan(all)
        }),
    decreases all.len(),
{
    let new = all.update(row, line);
    let dep = placed(
        yaml_entry(line)->0,
        catalog_context(catalog_scan(all.take(row)))->0,
        row as nat,
        indent_of(line),
    );
    assert(all.take(all.len() - 1) =~= all.drop_last());
    let before = catalog_scan(all.take(row));
    if row == all.len() - 1 {
        assert(new.drop_last() =~= all.drop_last());
        lemma_catalog_entry(before, line, row as nat);
        lemma_catalog_entry(before, all[row], row as nat);
        assert(catalog_scan(new).deps =~= catalog_scan(all).deps.update(i, dep));
    } else {
        lemma_catalog_grows(all.drop_last(), row + 1);
        let first = all.drop_last();
        assert(first.take(row) =~= all.take(row));
        let upto = all.take(row + 1);
        assert(first.take(row + 1) =~= upto);
        assert(upto.drop_last() =~= all.take(row));
        lemma_catalog_entry(before, all[row], row as nat);
        assert(catalog_scan(upto).deps.len() == i + 1);
        lemma_catalog_grows(all, all.len() - 1);
        assert(catalog_scan(first).deps[i] == catalog_scan(all).deps[i]);
        lemma_catalog_update(first, i, row, line);
        assert(new.drop_last() =~= first.update(row, line));
        let st = catalog_scan(first);
        lemma_catalog_step(st, st.deps.update(i, dep), all.last(), (all.len() - 1) as nat);
        assert(catalog_scan(new).deps =~= catalog_scan(all).deps.update(i, dep));
    }
}

/// No line holds a line feed.
proof fn lemma_lines_lack(text: Seq<char>)
    ensures
        forall|i: int| 0 <= i < lines(text).len() ==> lacks(#[trigger] lines(text)[i], '\n'),
    decreases text.len(),
{
    if text.len() > 0 {
        lemma_span(text, CharClass::Except('\n'));
        match cut(text, '\n') {
            Some((first, rest)) => {
                lemma_cut_parts(text, '\n');
                lemma_lines_lack(rest);
                assert forall|i: int| 0 <= i < lines(text).len() implies lacks(
                    #[trigger] lines(text)[i],
                    '\n',
                ) by {
                    if i > 0 {
                        assert(lines(text)[i] == lines(rest)[i - 1]);
                    }
                }
            },
            None => {
                assert forall|k: int| 0 <= k < text.len() implies #[trigger] text[k] != '\n' by {
                    assert(CharClass::Except('\n').has(text[k]));
                }
            },
        }
    }
}

/// A text after an edit.
pub open spec fn applied(text: Seq<char>, edit: EditView) -> Seq<char> {
    edited(text, edit.row as nat, edit.cols.start as nat, edit.cols.end as nat, edit.text)
}

/// An entry with another version text.
pub open spec fn respecified(dep: DependencyView, new: Seq<char>) -> DependencyView {
    DependencyView {
        spec: new,
        value_cols: Range {
            start: dep.value_cols.start,
            end: (dep.value_cols.start + byte_len(new)) as u32,
        },
        ..dep
    }
}

pub proof fn lemma_first_named(deps: Seq<DependencyView>, context: Seq<char>, name: Seq<char>)
    ensures
        match first_named(deps, context, name) {
            Some(i) => {
                &&& i < deps.len()
                &&& deps[i as int].context == context
                &&& deps[i as int].name == name
                &&& forall|j: int|
                    0 <= j < i ==> (#[trigger] deps[j]).context != context || deps[j].name != name
            },
            None => forall|j: int|
                0 <= j < deps.len() ==> (#[trigger] deps[j]).context != context || deps[j].name
                    != name,
        },
    decreases deps.len(),
{
    if deps.len() > 0 && !(deps[0].context == context && deps[0].name == name) {
        let rest = deps.drop_first();
        lemma_first_named(rest, context, name);
        assert forall|j: int| 0 < j < deps.len() implies #[trigger] deps[j] == rest[j - 1] by {}
    }
}

/// The text that a version text is rewritten to holds no line end and is not empty.
proof fn lemma_new_text(spec_text: Seq<char>, v: VersionView)
    requires
        well_formed(v),
        lacks(spec_text, '\n'),
    ensures
        lacks(rewritten(spec_text, v), '\n'),
        rewritten(spec_text, v).len() > 0,
        rewritten(spec_text, v).last() != '\r',
        is_inside(spec_text) ==> is_inside(rewritten(spec_text, v)),
{
    lemma_version_chars(v);
    lemma_range_prefix(spec_text);
    let prefix = range_prefix(spec_text);
    let text = version_text(v);
    let new = rewritten(spec_text, v);
    assert forall|i: int| 0 <= i < new.len() implies #[trigger] new[i] == (if i < prefix.len() {
        spec_text[i]
    } else {
        text[i - prefix.len()]
    }) by {}
    assert forall|j: int| 0 <= j < text.len() implies #[trigger] text[j] != '\n' && text[j] != '\r'
        && text[j] != '"' && text[j] != '\\' by {
        assert(is_identifier_char(text[j]) || text[j] == '+');
    }
    assert(new.last() == text[text.len() - 1]);
    if is_inside(spec_text) {
        lemma_inside_rewritten(spec_text, prefix.len() as int, text);
    }
}

/// What an edit that rewrites an entry does to the lines: the line of the entry holds
/// the rewritten one, indented as before.
proof fn lemma_edit_line(text: Seq<char>, kind: LensFile, i: int, v: VersionView) -> (r: (
    int,
    Seq<char>,
))
    requires
        fits(text),
        0 <= i < listed(text, kind).len(),
        well_formed(v),
    ensures
        ({
            let dep = listed(text, kind)[i];
            let new = rewritten(dep.spec, v);
            let (row, line) = r;
            let all = lines(text);
            let edit = EditView { row: dep.row, cols: dep.value_cols, text: new };
            &&& lines(applied(text, edit)) == all.update(row, line)
            &&& indent_of(line) == indent_of(all[row])
            &&& row == dep.row
            &&& match kind {
                LensFile::PackageJson => {
                    &&& json_row(all, i, row)
                    &&& json_entry(line) == Some(with_spec(json_entry(all[row])->0, new))
                    &&& outside_strings(line) == outside_strings(all[row])
                    &&& lead_of(line) == lead_of(all[row])
                },
                LensFile::PnpmWorkspace => {
                    &&& catalog_row(all, i, row)
                    &&& yaml_entry(line) == Some(with_spec(yaml_entry(all[row])->0, new))
                    &&& trim_start(line).len() > 0
                    &&& trim_start(line)[0] == trim_start(all[row])[0]
                },
            }
        }),
{
    let dep = listed(text, kind)[i];
    let new = rewritten(dep.spec, v);
    let (row, e) = lemma_stands(text, kind, i);
    let before = lines(text)[row];
    lemma_lines_lack(text);
    lemma_slice_lacks(before, e.spec_at, e.spec_at + byte_len(e.spec), '\n');
    lemma_new_text(dep.spec, v);
    lemma_edited_lines(text, row as nat, e.spec_at, e.spec_at + byte_len(e.spec), new);
    match kind {
        LensFile::PackageJson => {
            lemma_json_spec(before);
            law_json_line_rewrite(before, new);
        },
        LensFile::PnpmWorkspace => {
            lemma_can_rewrite(before, v);
            law_yaml_line_rewrite(before, new);
        },
    }
    (row, spliced(before, e.spec_at, e.spec_at + byte_len(e.spec), new))
}

/// An edit that rewrites an entry to a version leaves everything else that the file
/// lists as it was: the rest of the entry and all the other entries.
pub proof fn law_rewrite(
    text: Seq<char>,
    kind: LensFile,
    context: Seq<char>,
    name: Seq<char>,
    v: VersionView,
)
    requires
        fits(text),
        well_formed(v),
        version_edit(listed(text, kind), context, name, v) is Some,
    ensures
        ({
            let deps = listed(text, kind);
            let i = first_named(deps, context, name)->0 as int;
            let edit = version_edit(deps, context, name, v)->0;
            listed(applied(text, edit), kind) == deps.update(i, respecified(deps[i], edit.text))
        }),
{
    let deps = listed(text, kind);
    lemma_first_named(deps, context, name);
    let i = first_named(deps, context, name)->0 as int;
    let (row, line) = lemma_edit_line(text, kind, i, v);
    let (_, e) = lemma_stands(text, kind, i);
    let all = lines(text);
    match kind {
        LensFile::PackageJson => {
            lemma_json_update(all, i, row, line);
        },
        LensFile::PnpmWorkspace => {
            lemma_catalog_update(all, i, row, line);
        },
    }
}

/// After an edit that rewrites an entry to a version, the first entry of that name is the
/// same one, a range in it starts from that version, and to rewrite it to that version
/// again there is nothing to edit.
pub proof fn law_rewritten(
    text: Seq<char>,
    kind: LensFile,
    context: Seq<char>,
    name: Seq<char>,
    v: VersionView,
)
    requires
        fits(text),
        well_formed(v),
        version_edit(listed(text, kind), context, name, v) is Some,
    ensures
        ({
            let deps = listed(text, kind);
            let i = first_named(deps, context, name)->0 as int;
            let edit = version_edit(deps, context, name, v)->0;
            let after = listed(applied(text, edit), kind);
            &&& first_named(after, context, name) == first_named(deps, context, name)
            &&& range_version(deps[i].spec) is Some ==> range_version(after[i].spec) == Some(
                release(v.major, v.minor, v.patch),
            )
            &&& version_edit(after, context, name, v) is None
        }),
{
    let deps = listed(text, kind);
    lemma_first_named(deps, context, name);
    let i = first_named(deps, context, name)->0 as int;
    let edit = version_edit(deps, context, name, v)->0;
    let after = listed(applied(text, edit), kind);
    law_rewrite(text, kind, context, name, v);
    lemma_first_named(after, context, name);
    let k = first_named(after, context, name);
    if k is None || k->0 > i {
        assert(after[i].context != context || after[i].name != name);
    } else if k->0 < i {
        assert(after[k->0 as int] == deps[k->0 as int]);
    }
    law_rewrite_again(deps[i].spec, v, v);
    if range_version(deps[i].spec) is Some {
        law_rewrite_reads_back(deps[i].spec, v);
    }
}

} // verus!
