//! What a version text that names something of the workspace stands for.
use crate::json::{holds, json_document, law_field_text, JsonView};
use crate::text::{
    find_text, is_space, lacks, lemma_find_text, lemma_span, lemma_span_unique, lemma_trim_end,
    span, split, trim, trim_start, CharClass,
};
use crate::text_laws::{is_blank, law_find_text, law_split, law_trim};
use crate::workspace::{
    hint, is_manifest_path, local_versions, lookup, manifest_package, names_workspace, workspace_of,
    ContextView,
};
use vstd::prelude::*;

verus! {

/// Whether a text begins with another one behind blanks.
pub open spec fn begins(s: Seq<char>, prefix: Seq<char>) -> bool {
    exists|lead: Seq<char>, rest: Seq<char>|
        is_blank(lead) && s == #[trigger] behind(lead, prefix, rest)
}

/// A text behind blanks, with another one after it.
pub open spec fn behind(lead: Seq<char>, prefix: Seq<char>, rest: Seq<char>) -> Seq<char> {
    lead + prefix + rest
}

proof fn lemma_begins(s: Seq<char>, prefix: Seq<char>)
    requires
        prefix.len() > 0,
        !is_space(prefix[0]),
        !is_space(prefix.last()),
    ensures
        prefix.is_prefix_of(trim(s)) <==> begins(s, prefix),
{
    let t = trim_start(s);
    lemma_span(s, CharClass::Space);
    lemma_trim_end(t);
    let u = trim(s);
    let n = span(s, CharClass::Space) as int;
    if prefix.is_prefix_of(u) {
        let lead = s.take(n);
        let rest = t.skip(prefix.len() as int);
        assert forall|i: int| 0 <= i < lead.len() implies is_space(#[trigger] lead[i]) by {
            assert(CharClass::Space.has(s[i]));
        }
        assert(u.subrange(0, prefix.len() as int) =~= prefix);
        assert(s =~= behind(lead, prefix, rest)) by {
            assert forall|i: int| 0 <= i < prefix.len() implies #[trigger] prefix[i] == s[n + i] by {
                assert(u.subrange(0, prefix.len() as int)[i] == u[i]);
                assert(u[i] == t[i]);
            }
        }
    }
    if begins(s, prefix) {
        let (lead, rest) = choose|lead: Seq<char>, rest: Seq<char>|
            is_blank(lead) && s == #[trigger] behind(lead, prefix, rest);
        assert forall|i: int| 0 <= i < lead.len() implies CharClass::Space.has(
            #[trigger] s[i],
        ) by {
            assert(s[i] == lead[i]);
        }
        assert(s[lead.len() as int] == prefix[0]);
        lemma_span_unique(s, CharClass::Space, lead.len());
        assert(t =~= prefix + rest);
        if u.len() < prefix.len() {
            assert(is_space(t[prefix.len() - 1]));
            assert(t[prefix.len() - 1] == prefix.last());
        }
        assert(u.subrange(0, prefix.len() as int) =~= prefix);
    }
}

/// What is resolved against the workspace is what begins with `catalog:` or `workspace:`,
/// behind any blanks, and nothing else.
pub proof fn law_names_workspace(s: Seq<char>)
    ensures
        names_workspace(s) <==> begins(s, "catalog:"@) || begins(s, "workspace:"@),
{
    reveal_strlit("catalog:");
    reveal_strlit("workspace:");
    lemma_begins(s, "catalog:"@);
    lemma_begins(s, "workspace:"@);
}

/// A reference as it is written behind a keyword: nothing, or a text that ends in no blank.
pub open spec fn is_reference(rest: Seq<char>) -> bool {
    rest.len() > 0 ==> !is_space(rest.last())
}

/// A reference that is found is shown as it is written, without the blanks around it, with
/// an arrow and the version it stands for.
pub open spec fn shown(reference: Seq<char>, version: Option<Seq<char>>) -> Option<Seq<char>> {
    match version {
        Some(version) => Some(reference + " → "@ + version),
        None => None,
    }
}

/// A text that is a keyword and a reference is what is left of it between blanks.
proof fn lemma_reference(
    lead: Seq<char>,
    keyword: Seq<char>,
    rest: Seq<char>,
    tail: Seq<char>,
)
    requires
        is_blank(lead),
        is_blank(tail),
        is_reference(rest),
        keyword == "catalog:"@ || keyword == "workspace:"@,
    ensures
        trim(lead + (keyword + rest) + tail) == keyword + rest,
        keyword.is_prefix_of(keyword + rest),
        (keyword + rest).skip(keyword.len() as int) == rest,
        keyword == "workspace:"@ ==> !"catalog:"@.is_prefix_of(keyword + rest),
{
    reveal_strlit("catalog:");
    reveal_strlit("workspace:");
    let s = keyword + rest;
    assert(s[0] == keyword[0]);
    if rest.len() > 0 {
        assert(s.last() == rest.last());
    } else {
        assert(s =~= keyword);
    }
    law_trim(lead, s, tail);
    assert(s.skip(keyword.len() as int) =~= rest);
    assert(s.subrange(0, keyword.len() as int) =~= keyword);
    if "catalog:"@.is_prefix_of(s) {
        assert("catalog:"@ =~= s.subrange(0, 8));
        assert(s[0] == 'c');
    }
}

/// `catalog:` and `catalog:default` stand for what the default catalog has for the package.
pub proof fn law_default_reference(
    lead: Seq<char>,
    rest: Seq<char>,
    tail: Seq<char>,
    name: Seq<char>,
    context: ContextView,
)
    requires
        is_blank(lead),
        is_blank(tail),
        rest.len() == 0 || rest == "default"@,
    ensures
        hint(lead + ("catalog:"@ + rest) + tail, name, context) == shown(
            "catalog:"@ + rest,
            if context.default_catalog.contains_key(name) {
                Some(context.default_catalog[name])
            } else {
                None
            },
        ),
{
    reveal_strlit("default");
    lemma_reference(lead, "catalog:"@, rest, tail);
}

/// `catalog:` with another name stands for what the catalog of that name has for the
/// package; with an unknown name it stands for nothing.
pub proof fn law_named_reference(
    lead: Seq<char>,
    catalog: Seq<char>,
    tail: Seq<char>,
    name: Seq<char>,
    context: ContextView,
)
    requires
        is_blank(lead),
        is_blank(tail),
        catalog.len() > 0 && catalog != "default"@ && is_reference(catalog),
    ensures
        hint(lead + ("catalog:"@ + catalog) + tail, name, context) == shown(
            "catalog:"@ + catalog,
            if context.named_catalogs.contains_key(catalog)
                && context.named_catalogs[catalog].contains_key(name) {
                Some(context.named_catalogs[catalog][name])
            } else {
                None
            },
        ),
{
    lemma_reference(lead, "catalog:"@, catalog, tail);
}

/// `workspace:` with anything behind it stands for the version of the package in the
/// worktree.
pub proof fn law_local_reference(
    lead: Seq<char>,
    range: Seq<char>,
    tail: Seq<char>,
    name: Seq<char>,
    context: ContextView,
)
    requires
        is_blank(lead),
        is_blank(tail),
        is_reference(range),
    ensures
        hint(lead + ("workspace:"@ + range) + tail, name, context) == shown(
            "workspace:"@ + range,
            if context.local_versions.contains_key(name) {
                Some(context.local_versions[name])
            } else {
                None
            },
        ),
{
    lemma_reference(lead, "workspace:"@, range, tail);
}

/// Nothing else stands for anything.
pub proof fn law_no_reference(spec_text: Seq<char>, name: Seq<char>, context: ContextView)
    requires
        !begins(spec_text, "catalog:"@),
        !begins(spec_text, "workspace:"@),
    ensures
        hint(spec_text, name, context) is None,
{
    law_names_workspace(spec_text);
}

/// The package of a manifest is the texts under `name` and `version`, where the manifest is
/// JSON and has both.
pub proof fn law_manifest_package(text: Seq<char>, name: Seq<char>, version: Seq<char>)
    ensures
        manifest_package(text) == Some((name, version)) <==> exists|document: JsonView|
            {
                &&& json_document(text) == Some(document)
                &&& #[trigger] holds(document, "name"@, JsonView::Text(name))
                &&& holds(document, "version"@, JsonView::Text(version))
            },
{
    match json_document(text) {
        Some(document) => {
            law_field_text(document, "name"@, name);
            law_field_text(document, "version"@, version);
            if manifest_package(text) == Some((name, version)) {
                assert(holds(document, "name"@, JsonView::Text(name)));
            }
        },
        None => {},
    }
}

/// The version of a package in the worktree is that of the last manifest that describes it.
pub proof fn law_local_versions(manifests: Seq<Seq<char>>, name: Seq<char>, version: Seq<char>)
    ensures
        lookup(local_versions(manifests), name) == Some(version) <==> exists|i: int|
            #[trigger] last_describes(manifests, i, name, version),
    decreases manifests.len(),
{
    if manifests.len() > 0 {
        let rest = manifests.drop_last();
        let n = manifests.len() - 1;
        law_local_versions(rest, name, version);
        let last = manifest_package(manifests.last());
        assert(manifests[n] == manifests.last());
        match last {
            Some((found, v)) => {
                if found == name {
                    assert(package_of(manifests.last(), name, v));
                }
            },
            None => {},
        }
        if describes(manifests.last(), name) {
            if last == Some((name, version)) {
                assert(last_describes(manifests, n, name, version));
            }
            assert forall|i: int| #[trigger] last_describes(
                manifests,
                i,
                name,
                version,
            ) implies i == n by {
                if i < n {
                    assert(!describes(manifests[n], name));
                }
            }
        } else {
            assert forall|i: int| #[trigger] last_describes(manifests, i, name, version)
                == last_describes(rest, i, name, version) by {
                if 0 <= i < n {
                    assert(rest[i] == manifests[i]);
                    if last_describes(rest, i, name, version) {
                        assert forall|j: int| i < j < manifests.len() implies !describes(
                            #[trigger] manifests[j],
                            name,
                        ) by {
                            if j < n {
                                assert(rest[j] == manifests[j]);
                            }
                        }
                    }
                    if last_describes(manifests, i, name, version) {
                        assert forall|j: int| i < j < rest.len() implies !describes(
                            #[trigger] rest[j],
                            name,
                        ) by {
                            assert(rest[j] == manifests[j]);
                        }
                    }
                }
            }
            if exists|i: int| #[trigger] last_describes(manifests, i, name, version) {
                let i = choose|i: int| #[trigger] last_describes(manifests, i, name, version);
                assert(last_describes(rest, i, name, version));
            }
            if exists|i: int| #[trigger] last_describes(rest, i, name, version) {
                let i = choose|i: int| #[trigger] last_describes(rest, i, name, version);
                assert(last_describes(manifests, i, name, version));
            }
        }
    }
}

/// Whether a manifest describes the package.
pub open spec fn describes(manifest: Seq<char>, name: Seq<char>) -> bool {
    exists|version: Seq<char>| #[trigger] package_of(manifest, name, version)
}

/// Whether a manifest describes the package in the version.
pub open spec fn package_of(manifest: Seq<char>, name: Seq<char>, version: Seq<char>) -> bool {
    manifest_package(manifest) == Some((name, version))
}

/// Whether a manifest describes the package in the version, and none after it describes
/// the package.
pub open spec fn last_describes(
    manifests: Seq<Seq<char>>,
    i: int,
    name: Seq<char>,
    version: Seq<char>,
) -> bool {
    &&& 0 <= i < manifests.len()
    &&& package_of(manifests[i], name, version)
    &&& forall|j: int| i < j < manifests.len() ==> !describes(#[trigger] manifests[j], name)
}

/// A workspace without a `pnpm-workspace.yaml` has no catalogs.
pub proof fn law_no_catalogs(manifests: Seq<Seq<char>>)
    ensures
        workspace_of(None, manifests).default_catalog == Map::<Seq<char>, Seq<char>>::empty(),
        workspace_of(None, manifests).named_catalogs == Map::<
            Seq<char>,
            Map<Seq<char>, Seq<char>>,
        >::empty(),
        forall|yaml: Option<Seq<char>>| #[trigger]
            workspace_of(yaml, manifests).local_versions == local_versions(manifests),
{
}

/// The manifests of a workspace are the files named `package.json`, but for those with
/// `node_modules` anywhere in their path.
pub proof fn law_manifest_path(dir: Seq<char>, file: Seq<char>)
    requires
        lacks(file, '/'),
    ensures
        is_manifest_path(dir + seq!['/'] + file) <==> file == "package.json"@ && !has_text(
            dir + seq!['/'] + file,
            "node_modules"@,
        ),
        is_manifest_path(file) <==> file == "package.json"@,
{
    let path = dir + seq!['/'] + file;
    lemma_last_piece(dir, '/', file);
    law_split(file, '/', file);
    lemma_has_text(path, "node_modules"@);
    lemma_has_text(file, "node_modules"@);
    if file == "package.json"@ && has_text(file, "node_modules"@) {
        reveal_strlit("package.json");
        reveal_strlit("node_modules");
        let (a, b) = choose|a: Seq<char>, b: Seq<char>|
            file == #[trigger] behind(a, "node_modules"@, b);
        assert(file[a.len() as int] == 'n');
        assert(a.len() + 12 + b.len() == 12);
        assert(file[0] == 'p');
    }
}

/// Whether a text stands somewhere in another one.
pub open spec fn has_text(s: Seq<char>, needle: Seq<char>) -> bool {
    exists|a: Seq<char>, b: Seq<char>| s == #[trigger] behind(a, needle, b)
}

proof fn lemma_has_text(s: Seq<char>, needle: Seq<char>)
    ensures
        find_text(s, needle) is Some <==> has_text(s, needle),
{
    lemma_find_text(s, needle);
    match find_text(s, needle) {
        Some(k) => {
            let a = s.take(k as int);
            let b = s.skip((k + needle.len()) as int);
            assert(s.skip(k as int).subrange(0, needle.len() as int) =~= needle);
            assert(s =~= behind(a, needle, b)) by {
                assert forall|i: int| 0 <= i < needle.len() implies #[trigger] needle[i] == s[k
                    + i] by {
                    assert(s.skip(k as int).subrange(0, needle.len() as int)[i] == s[k + i]);
                }
            }
        },
        None => {
            if has_text(s, needle) {
                let (a, b) = choose|a: Seq<char>, b: Seq<char>|
                    s == #[trigger] behind(a, needle, b);
                law_find_text(a, needle, b);
            }
        },
    }
}

/// The last piece of a text is what stands behind the last of the characters.
pub proof fn lemma_last_piece(dir: Seq<char>, c: char, file: Seq<char>)
    requires
        lacks(file, c),
    ensures
        split(dir + seq![c] + file, c).last() == file,
    decreases dir.len(),
{
    let s = dir + seq![c] + file;
    if lacks(dir, c) {
        law_split(dir, c, file);
        law_split(file, c, file);
    } else {
        lemma_span(dir, CharClass::Except(c));
        let k = span(dir, CharClass::Except(c)) as int;
        if k == dir.len() {
            assert forall|i: int| 0 <= i < dir.len() implies #[trigger] dir[i] != c by {
                assert(CharClass::Except(c).has(dir[i]));
            }
        }
        let (a, b) = (dir.take(k), dir.skip(k + 1));
        assert forall|i: int| 0 <= i < a.len() implies #[trigger] a[i] != c by {
            assert(CharClass::Except(c).has(dir[i]));
        }
        let rest = b + seq![c] + file;
        assert(s =~= a + seq![c] + rest);
        law_split(a, c, rest);
        lemma_last_piece(b, c, file);
        lemma_split_some(rest, c);
        assert((seq![a] + split(rest, c)).last() == split(rest, c).last());
    }
}

proof fn lemma_split_some(s: Seq<char>, c: char)
    ensures
        split(s, c).len() > 0,
{
}

} // verus!
