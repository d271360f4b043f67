//! What the popover of a package shows.
use crate::hover::{
    hover_markdown, hover_over, link_parts, meta_parts, paragraph, DocStateView, HoverView,
};
use crate::registry::DocView;
use crate::text_laws::law_join;
use crate::version::version_text;
use std::ops::Range;
use vstd::prelude::*;

verus! {

/// The paragraph with the latest version and the license.
pub open spec fn meta_text(doc: DocView) -> Seq<char> {
    match (doc.latest, doc.license) {
        (Some(v), Some(license)) => "**"@ + version_text(v) + "** · latest"@ + " · "@ + license
            + "\n\n"@,
        (Some(v), None) => "**"@ + version_text(v) + "** · latest"@ + "\n\n"@,
        (None, Some(license)) => license + "\n\n"@,
        (None, None) => Seq::empty(),
    }
}

/// The paragraph with the links.
pub open spec fn link_text(name: Seq<char>, doc: DocView) -> Seq<char> {
    "[npm](https://www.npmjs.com/package/"@ + name + ")"@ + (match doc.homepage {
        Some(homepage) => " · "@ + ("[homepage]("@ + homepage + ")"@),
        None => Seq::empty(),
    }) + (match doc.repository {
        Some(repository) => " · "@ + ("[repository]("@ + repository + ")"@),
        None => Seq::empty(),
    }) + "\n\n"@
}

/// The popover shows the name, then the latest version and the license, the description,
/// the links to the package at the registry, to its homepage and to its repository, and the
/// README, each where there is one and whatever else there is.
pub proof fn law_hover_text(name: Seq<char>, doc: DocView)
    ensures
        hover_markdown(name, doc) == "## "@ + name + "\n\n"@ + meta_text(doc) + (
        match doc.description {
            Some(description) => description + "\n\n"@,
            None => Seq::empty(),
        }) + link_text(name, doc) + (match doc.readme {
            Some(readme) => "---\n\n"@ + readme,
            None => Seq::empty(),
        }),
{
    reveal_strlit("");
    assert(""@ =~= Seq::<char>::empty());
    lemma_meta(doc);
    lemma_links(name, doc);
}

proof fn lemma_meta(doc: DocView)
    ensures
        paragraph(meta_parts(doc)) == meta_text(doc),
{
    reveal_strlit("");
    let none = Seq::<Seq<char>>::empty();
    let parts = meta_parts(doc);
    let sep = " · "@;
    match (doc.latest, doc.license) {
        (Some(v), Some(license)) => {
            let (x, y) = ("**"@ + version_text(v) + "** · latest"@, ""@ + license + ""@);
            assert(y =~= license);
            assert(parts =~= none.push(x).push(y));
            law_join(none, x, sep);
            law_join(none.push(x), y, sep);
        },
        (Some(v), None) => {
            let x = "**"@ + version_text(v) + "** · latest"@;
            assert(parts =~= none.push(x));
            law_join(none, x, sep);
        },
        (None, Some(license)) => {
            let y = ""@ + license + ""@;
            assert(y =~= license);
            assert(parts =~= none.push(y));
            law_join(none, y, sep);
        },
        (None, None) => {
            assert(parts =~= none);
            assert(""@ =~= Seq::<char>::empty());
        },
    }
}

proof fn lemma_links(name: Seq<char>, doc: DocView)
    ensures
        paragraph(link_parts(name, doc)) == link_text(name, doc),
{
    let none = Seq::<Seq<char>>::empty();
    let nothing = Seq::<char>::empty();
    let parts = link_parts(name, doc);
    let sep = " · "@;
    let npm = "[npm](https://www.npmjs.com/package/"@ + name + ")"@;
    law_join(none, npm, sep);
    match (doc.homepage, doc.repository) {
        (Some(homepage), Some(repository)) => {
            let x = "[homepage]("@ + homepage + ")"@;
            let y = "[repository]("@ + repository + ")"@;
            assert(parts =~= none.push(npm).push(x).push(y));
            law_join(none.push(npm), x, sep);
            law_join(none.push(npm).push(x), y, sep);
            assert(npm + (sep + x) + (sep + y) =~= npm + sep + x + sep + y);
        },
        (Some(homepage), None) => {
            let x = "[homepage]("@ + homepage + ")"@;
            assert(parts =~= none.push(npm).push(x));
            law_join(none.push(npm), x, sep);
            assert(npm + (sep + x) + nothing =~= npm + sep + x);
        },
        (None, Some(repository)) => {
            let y = "[repository]("@ + repository + ")"@;
            assert(parts =~= none.push(npm).push(y));
            law_join(none.push(npm), y, sep);
            assert(npm + nothing + (sep + y) =~= npm + sep + y);
        },
        (None, None) => {
            assert(parts =~= none.push(npm));
            assert(npm + nothing + nothing =~= npm);
        },
    }
}

/// A package whose document is there is shown, one whose document could not be had is not,
/// and one that nothing is known of is asked for, each at the columns of its name.
pub proof fn law_hover_over(
    cache: Map<Seq<char>, DocStateView>,
    package: Seq<char>,
    cols: Range<u32>,
    doc: DocView,
)
    ensures
        !cache.contains_key(package) ==> hover_over(cache, package, cols) == HoverView::Ask(
            package,
            cols,
        ),
        cache.contains_key(package) && cache[package] == DocStateView::Failed ==> hover_over(
            cache,
            package,
            cols,
        ) == HoverView::Nothing,
        cache.contains_key(package) && cache[package] == DocStateView::Ready(doc) ==> hover_over(
            cache,
            package,
            cols,
        ) == HoverView::Show(hover_markdown(package, doc), cols),
{
}

} // verus!
