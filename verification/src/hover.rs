//! The hover popover over the name of a package.
use crate::json::opt_view;
use crate::manifest::{first_under_point, listed, package_at_point, LensFile};
use crate::registry::{DocView, PackageDoc};
use crate::text::{join, joined, views};
use crate::text_map::TextMap;
use crate::version::version_text;
use std::ops::Range;
use vstd::prelude::*;
use vstd::string::*;

verus! {

/// One part where there is something to say, none where there is not.
pub open spec fn part(before: Seq<char>, text: Option<Seq<char>>, after: Seq<char>) -> Seq<
    Seq<char>,
> {
    match text {
        Some(text) => seq![before + text + after],
        None => seq![],
    }
}

/// The latest version and the license.
pub open spec fn meta_parts(doc: DocView) -> Seq<Seq<char>> {
    part(
        "**"@,
        match doc.latest {
            Some(v) => Some(version_text(v)),
            None => None,
        },
        "** · latest"@,
    ) + part(""@, doc.license, ""@)
}

/// The links of a package.
pub open spec fn link_parts(name: Seq<char>, doc: DocView) -> Seq<Seq<char>> {
    seq!["[npm](https://www.npmjs.com/package/"@ + name + ")"@] + part(
        "[homepage]("@,
        doc.homepage,
        ")"@,
    ) + part("[repository]("@, doc.repository, ")"@)
}

/// A paragraph of parts, or nothing where there are none.
pub open spec fn paragraph(parts: Seq<Seq<char>>) -> Seq<char> {
    if parts.len() > 0 {
        join(parts, " · "@) + "\n\n"@
    } else {
        ""@
    }
}

/// The text of the popover: the name, the latest version and the license, the
/// description, the links and the README, as far as there are any.
pub open spec fn hover_markdown(name: Seq<char>, doc: DocView) -> Seq<char> {
    "## "@ + name + "\n\n"@ + paragraph(meta_parts(doc)) + (match doc.description {
        Some(description) => description + "\n\n"@,
        None => ""@,
    }) + paragraph(link_parts(name, doc)) + (match doc.readme {
        Some(readme) => "---\n\n"@ + readme,
        None => ""@,
    })
}

/// Adds a part where there is something to say.
fn push_part(parts: &mut Vec<String>, before: &str, text: Option<&String>, after: &str)
    ensures
        views(final(parts)@) == views(old(parts)@) + part(
            before@,
            match text {
                Some(text) => Some(text@),
                None => None,
            },
            after@,
        ),
{
    if let Some(text) = text {
        let mut added = before.to_string();
        added.append(text.as_str());
        added.append(after);
        parts.push(added);
        proof {
            assert(views(parts@) =~= views(old(parts)@) + seq![before@ + text@ + after@]);
        }
    } else {
        proof {
            assert(views(parts@) =~= views(old(parts)@) + Seq::<Seq<char>>::empty());
        }
    }
}

/// Adds a paragraph of parts, if there are any.
fn push_paragraph(out: &mut String, parts: &Vec<String>)
    ensures
        final(out)@ == old(out)@ + paragraph(views(parts@)),
{
    proof {
        reveal_strlit("");
    }
    if parts.len() > 0 {
        out.append(joined(parts, " · ").as_str());
        out.append("\n\n");
    }
    proof {
        assert(out@ =~= old(out)@ + paragraph(views(parts@)));
    }
}

/// The text of the popover.
pub fn build_hover_markdown(name: &str, doc: &PackageDoc) -> (r: String)
    ensures
        r@ == hover_markdown(name@, doc@),
{
    let mut markdown = "## ".to_string();
    markdown.append(name);
    markdown.append("\n\n");
    let mut meta: Vec<String> = Vec::new();
    let latest: Option<String> = match &doc.latest {
        Some(version) => Some(version.to_text()),
        None => None,
    };
    push_part(&mut meta, "**", latest.as_ref(), "** · latest");
    push_part(&mut meta, "", doc.license.as_ref(), "");
    proof {
        assert(views(meta@) =~= meta_parts(doc@));
    }
    push_paragraph(&mut markdown, &meta);
    let ghost head = markdown@;
    if let Some(description) = &doc.description {
        markdown.append(description.as_str());
        markdown.append("\n\n");
    }
    proof {
        reveal_strlit("");
        assert(markdown@ =~= head + (match doc@.description {
            Some(description) => description + "\n\n"@,
            None => ""@,
        }));
    }
    let mut links: Vec<String> = Vec::new();
    let mut npm = "[npm](https://www.npmjs.com/package/".to_string();
    npm.append(name);
    npm.append(")");
    links.push(npm);
    proof {
        assert(views(links@) =~= seq![npm@]);
    }
    push_part(&mut links, "[homepage](", doc.homepage.as_ref(), ")");
    push_part(&mut links, "[repository](", doc.repository.as_ref(), ")");
    push_paragraph(&mut markdown, &links);
    let ghost body = markdown@;
    if let Some(readme) = &doc.readme {
        markdown.append("---\n\n");
        markdown.append(readme.as_str());
    }
    proof {
        assert(markdown@ =~= body + (match doc@.readme {
            Some(readme) => "---\n\n"@ + readme,
            None => ""@,
        }));
    }
    markdown
}

/// What is known of a package for the popover.
#[derive(Debug)]
pub enum DocState {
    /// It was asked for and could not be had. It is not asked for again.
    Failed,
    Ready(PackageDoc),
}

/// What a [`DocState`] says.
#[verifier::ext_equal]
pub enum DocStateView {
    Failed,
    Ready(DocView),
}

impl View for DocState {
    type V = DocStateView;

    open spec fn view(&self) -> DocStateView {
        match self {
            DocState::Failed => DocStateView::Failed,
            DocState::Ready(doc) => DocStateView::Ready(doc@),
        }
    }
}

/// What is known of the packages that the pointer was over.
#[derive(Debug)]
pub struct DocCache {
    pub docs: TextMap<DocState>,
}

impl View for DocCache {
    type V = Map<Seq<char>, DocStateView>;

    open spec fn view(&self) -> Map<Seq<char>, DocStateView> {
        self.docs@.map_values(|state: DocState| state@)
    }
}

/// What is to be done when the pointer rests somewhere.
#[derive(Debug)]
pub enum Hover {
    /// There is nothing to show.
    Nothing,
    /// The package must be asked for; its name has the given columns.
    Ask(String, Range<u32>),
    /// The text to show over the given columns.
    Show(String, Range<u32>),
}

/// What a [`Hover`] says.
pub enum HoverView {
    Nothing,
    Ask(Seq<char>, Range<u32>),
    Show(Seq<char>, Range<u32>),
}

impl View for Hover {
    type V = HoverView;

    open spec fn view(&self) -> HoverView {
        match self {
            Hover::Nothing => HoverView::Nothing,
            Hover::Ask(package, cols) => HoverView::Ask(package@, *cols),
            Hover::Show(markdown, cols) => HoverView::Show(markdown@, *cols),
        }
    }
}

/// What is to be done when the pointer rests on a package.
pub open spec fn hover_over(
    cache: Map<Seq<char>, DocStateView>,
    package: Seq<char>,
    cols: Range<u32>,
) -> HoverView {
    if cache.contains_key(package) {
        match cache[package] {
            DocStateView::Ready(doc) => HoverView::Show(hover_markdown(package, doc), cols),
            DocStateView::Failed => HoverView::Nothing,
        }
    } else {
        HoverView::Ask(package, cols)
    }
}

impl DocCache {
    pub fn new() -> (r: DocCache)
        ensures
            r@ == Map::<Seq<char>, DocStateView>::empty(),
    {
        let r = DocCache { docs: TextMap::new() };
        proof {
            assert(r@ =~= Map::<Seq<char>, DocStateView>::empty());
        }
        r
    }

    /// Stores what came of asking for a package, and says what is to be shown.
    pub fn store(&mut self, package: String, doc: Option<PackageDoc>) -> (r: Option<String>)
        ensures
            final(self)@ == old(self)@.insert(
                package@,
                match doc {
                    Some(doc) => DocStateView::Ready(doc@),
                    None => DocStateView::Failed,
                },
            ),
            opt_view(r) == match doc {
                Some(doc) => Some(hover_markdown(package@, doc@)),
                None => None,
            },
    {
        let ghost key = package@;
        match doc {
            Some(doc) => {
                let markdown = build_hover_markdown(package.as_str(), &doc);
                self.docs.insert(package, DocState::Ready(doc));
                proof {
                    assert(self@ =~= old(self)@.insert(key, DocStateView::Ready(doc@)));
                }
                Some(markdown)
            },
            None => {
                self.docs.insert(package, DocState::Failed);
                proof {
                    assert(self@ =~= old(self)@.insert(key, DocStateView::Failed));
                }
                None
            },
        }
    }
}

/// Decides on the popover for the place where the pointer rests.
pub fn npm_package_hover(
    text: &str,
    kind: LensFile,
    row: u32,
    col: u32,
    cache: &DocCache,
) -> (r: Hover)
    ensures
        r@ == match first_under_point(listed(text@, kind), row, col) {
            Some(dep) => hover_over(cache@, dep.name, dep.name_cols),
            None => HoverView::Nothing,
        },
{
    match package_at_point(text, kind, row, col) {
        Some((package, cols)) => match cache.docs.get(package.as_str()) {
            Some(DocState::Ready(doc)) => Hover::Show(
                build_hover_markdown(package.as_str(), doc),
                cols,
            ),
            Some(DocState::Failed) => Hover::Nothing,
            None => Hover::Ask(package, cols),
        },
        None => Hover::Nothing,
    }
}

/// A package is asked for once: whatever came of it, the pointer over it never
/// makes it be asked for again, and what was found is what is shown.
pub proof fn law_asked_once(
    cache: Map<Seq<char>, DocStateView>,
    package: Seq<char>,
    state: DocStateView,
    cols: Range<u32>,
)
    ensures
        hover_over(cache.insert(package, state), package, cols) == match state {
            DocStateView::Ready(doc) => HoverView::Show(hover_markdown(package, doc), cols),
            DocStateView::Failed => HoverView::Nothing,
        },
{
}

} // verus!
