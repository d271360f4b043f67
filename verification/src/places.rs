//! Where the entries of a file stand, and which of them the pointer is at.
use crate::catalogs::catalog_deps;
use crate::listing::law_found;
use crate::manifest::{
    first_under_point, indent_of, kind_of, listed, under_point, DependencyView, LensFile,
};
use crate::package_json::package_json_deps;
use crate::text::{byte_len, is_space, lemma_span_unique, trim_start, CharClass};
use crate::text_laws::is_blank;
use vstd::prelude::*;

verus! {

/// Lenses are for files named `package.json` and `pnpm-workspace.yaml`, and for no others;
/// each lists what its kind of file does.
pub proof fn law_kinds(name: Seq<char>, text: Seq<char>)
    ensures
        kind_of(name) == Some(LensFile::PackageJson) <==> name == "package.json"@,
        kind_of(name) == Some(LensFile::PnpmWorkspace) <==> name == "pnpm-workspace.yaml"@,
        kind_of(name) is None <==> name != "package.json"@ && name != "pnpm-workspace.yaml"@,
        listed(text, LensFile::PackageJson) == package_json_deps(text),
        listed(text, LensFile::PnpmWorkspace) == catalog_deps(text),
{
    reveal_strlit("package.json");
    reveal_strlit("pnpm-workspace.yaml");
    assert("package.json"@.len() != "pnpm-workspace.yaml"@.len());
}

/// Whether a place is in the row of an entry, at its name or its version text or right
/// behind one of them.
pub open spec fn is_at(dep: DependencyView, row: u32, col: u32) -> bool {
    &&& dep.row == row
    &&& {
        ||| dep.name_cols.start <= col <= dep.name_cols.end
        ||| dep.value_cols.start <= col <= dep.value_cols.end
    }
}

/// The entry under the pointer is the first that it is at; there is none exactly where it
/// is at none.
pub proof fn law_pointer(deps: Seq<DependencyView>, row: u32, col: u32)
    ensures
        match first_under_point(deps, row, col) {
            Some(dep) => exists|i: int|
                {
                    &&& 0 <= i < deps.len()
                    &&& #[trigger] deps[i] == dep
                    &&& is_at(dep, row, col)
                    &&& forall|k: int| 0 <= k < i ==> !is_at(#[trigger] deps[k], row, col)
                },
            None => forall|i: int| 0 <= i < deps.len() ==> !is_at(#[trigger] deps[i], row, col),
        },
{
    law_found(deps, row, col);
    assert forall|dep: DependencyView| is_at(dep, row, col) == #[trigger] under_point(
        dep,
        row,
        col,
    ) by {}
    match first_under_point(deps, row, col) {
        Some(dep) => {
            let i = choose|i: int|
                0 <= i < deps.len() && #[trigger] deps[i] == dep && under_point(dep, row, col)
                    && forall|k: int| 0 <= k < i ==> !under_point(#[trigger] deps[k], row, col);
            assert forall|k: int| 0 <= k < i implies !is_at(#[trigger] deps[k], row, col) by {
                assert(!under_point(deps[k], row, col));
            }
            assert(deps[i] == dep);
        },
        None => {
            assert forall|i: int| 0 <= i < deps.len() implies !is_at(
                #[trigger] deps[i],
                row,
                col,
            ) by {
                assert(!under_point(deps[i], row, col));
            }
        },
    }
}

/// The indentation of a line is the bytes of the blanks that it begins with.
pub proof fn law_indent(lead: Seq<char>, body: Seq<char>)
    requires
        is_blank(lead),
        body.len() > 0 ==> !is_space(body[0]),
    ensures
        indent_of(lead + body) == byte_len(lead),
{
    let s = lead + body;
    assert forall|i: int| 0 <= i < lead.len() implies CharClass::Space.has(#[trigger] s[i]) by {
        assert(s[i] == lead[i]);
    }
    if body.len() > 0 {
        assert(s[lead.len() as int] == body[0]);
    }
    lemma_span_unique(s, CharClass::Space, lead.len());
    assert(trim_start(s) =~= body);
    assert(s.take(s.len() - body.len()) =~= lead);
}

} // verus!
