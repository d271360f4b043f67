//! Which dependencies have a lens, what it shows, and what is asked for.
use crate::lens::{
    after_edit, badge_mark, desired_lenses, has_lens, lens_of, signature, unknown_packages,
    update_badges, wanted_worktree, DesiredView, LensView, StateView,
};
use crate::manifest::{DependencyView, LensFile};
use crate::offers::law_badge_of_each_kind;
use crate::text::trim;
use crate::text_laws::law_join;
use crate::tiers::{last_update, law_up_to_date, BadgeView, Tier};
use crate::version::{range_version, version_le, version_text, VersionView};
use crate::workspace::{
    hint, law_workspace_not_registry, names_workspace, ready_context, ContextView, WorkspaceState,
};
use crate::workspace_laws::{begins, law_names_workspace};
use vstd::prelude::*;

verus! {

/// Whether a version text is a range that starts from a version, or names something of the
/// workspace.
pub open spec fn has_meaning(spec_text: Seq<char>) -> bool {
    ||| range_version(spec_text) is Some
    ||| begins(spec_text, "catalog:"@)
    ||| begins(spec_text, "workspace:"@)
}

/// How many of the first dependencies have a lens.
pub open spec fn lens_count(deps: Seq<DependencyView>, n: int) -> int
    decreases n,
{
    if n <= 0 {
        0
    } else {
        lens_count(deps, n - 1) + if has_meaning(deps[n - 1].spec) {
            1int
        } else {
            0
        }
    }
}

/// What is known of a package.
pub open spec fn known(cache: Map<Seq<char>, StateView>, name: Seq<char>) -> Option<StateView> {
    if cache.contains_key(name) {
        Some(cache[name])
    } else {
        None
    }
}

proof fn lemma_has_lens(dep: DependencyView)
    ensures
        has_lens(dep) <==> has_meaning(dep.spec),
{
    law_names_workspace(dep.spec);
}

proof fn lemma_lens_count(a: Seq<DependencyView>, b: Seq<DependencyView>, n: int)
    requires
        n <= a.len(),
        n <= b.len(),
        forall|i: int| 0 <= i < n ==> a[i] == #[trigger] b[i],
    ensures
        lens_count(a, n) == lens_count(b, n),
        lens_count(a, n) >= 0,
    decreases n,
{
    if n > 0 {
        lemma_lens_count(a, b, n - 1);
        assert(a[n - 1] == b[n - 1]);
    }
}

/// Each dependency whose version text is a range or names something of the workspace has
/// one lens, and no other has one. They stand in the order of the dependencies: before the
/// lens of a dependency stand those of the dependencies before it. A lens has the context,
/// the name, the row and the indentation of its dependency.
pub proof fn law_lens_at(
    deps: Seq<DependencyView>,
    cache: Map<Seq<char>, StateView>,
    workspace: Option<ContextView>,
    i: int,
)
    requires
        0 <= i < deps.len(),
    ensures
        desired_lenses(deps, cache, workspace).len() == lens_count(deps, deps.len() as int),
        has_meaning(deps[i].spec) ==> {
            let k = lens_count(deps, i);
            &&& 0 <= k < desired_lenses(deps, cache, workspace).len()
            &&& desired_lenses(deps, cache, workspace)[k] == (DesiredView {
                context: deps[i].context,
                name: deps[i].name,
                row: deps[i].row,
                indent: deps[i].indent,
                lens: lens_of(deps[i], known(cache, deps[i].name), workspace),
            })
        },
    decreases deps.len(),
{
    let rest = deps.drop_last();
    let n = deps.len() - 1;
    lemma_has_lens(deps.last());
    assert(deps[n] == deps.last());
    lemma_lens_count(rest, deps, n);
    if i < n {
        law_lens_at(rest, cache, workspace, i);
        lemma_lens_count(rest, deps, i);
        assert(rest[i] == deps[i]);
    } else {
        lemma_lens_len(rest, cache, workspace);
    }
}

proof fn lemma_lens_len(
    deps: Seq<DependencyView>,
    cache: Map<Seq<char>, StateView>,
    workspace: Option<ContextView>,
)
    ensures
        desired_lenses(deps, cache, workspace).len() == lens_count(deps, deps.len() as int),
    decreases deps.len(),
{
    if deps.len() > 0 {
        lemma_has_lens(deps.last());
        lemma_lens_count(deps.drop_last(), deps, deps.len() - 1);
        lemma_lens_len(deps.drop_last(), cache, workspace);
    }
}

/// The lens of a range shows that it is being checked as long as the versions of the
/// package are not known, that the package is unavailable where it has none, that it is the
/// latest where none is newer, and the updates otherwise.
pub proof fn law_range_lens(
    dep: DependencyView,
    current: VersionView,
    versions: Seq<VersionView>,
    workspace: Option<ContextView>,
)
    requires
        range_version(dep.spec) == Some(current),
    ensures
        lens_of(dep, None, workspace) == LensView::Loading,
        lens_of(dep, Some(StateView::Fetching), workspace) == LensView::Loading,
        lens_of(dep, Some(StateView::Resolved(versions)), workspace) == if versions.len() == 0 {
            LensView::Note("× unavailable"@)
        } else if forall|i: int|
            0 <= i < versions.len() ==> version_le(#[trigger] versions[i], current) {
            LensView::Note("✓ latest"@)
        } else {
            LensView::Tiers(update_badges(current, versions))
        },
{
    law_up_to_date(versions, current);
    law_badge_of_each_kind(
        last_update(versions, current, Tier::Patch),
        last_update(versions, current, Tier::Minor),
        last_update(versions, current, Tier::Major),
        current,
    );
}

/// The lens of what names something of the workspace shows that it is being checked as long
/// as the workspace is not known, then what the text stands for, and that it is unresolved
/// where it stands for nothing. What the registry says does not matter.
pub proof fn law_reference_lens(
    dep: DependencyView,
    state: Option<StateView>,
    context: ContextView,
)
    requires
        begins(dep.spec, "catalog:"@) || begins(dep.spec, "workspace:"@),
    ensures
        lens_of(dep, state, None) == LensView::Loading,
        lens_of(dep, state, Some(context)) == LensView::Note(
            match hint(dep.spec, dep.name, context) {
                Some(text) => text,
                None => trim(dep.spec) + " (unresolved)"@,
            },
        ),
{
    law_names_workspace(dep.spec);
    law_workspace_not_registry(dep.spec);
}

/// A package is asked for exactly where a dependency has it, that dependency has a range
/// that starts from a version, and nothing is known of the package.
pub proof fn law_asked_for(
    deps: Seq<DependencyView>,
    cache: Map<Seq<char>, StateView>,
    name: Seq<char>,
)
    ensures
        unknown_packages(deps, cache).contains(name) <==> !cache.contains_key(name)
            && wants_versions(deps, name),
    decreases deps.len(),
{
    if deps.len() > 0 {
        let rest = deps.drop_last();
        law_asked_for(rest, cache, name);
        let (before, all) = (unknown_packages(rest, cache), unknown_packages(deps, cache));
        let n = deps.len() - 1;
        assert(deps[n] == deps.last());
        if before.contains(name) {
            let k = choose|k: int| 0 <= k < before.len() && before[k] == name;
            assert(all[k] == name);
        }
        if all.contains(name) && !before.contains(name) {
            let k = choose|k: int| 0 <= k < all.len() && all[k] == name;
            if k < before.len() {
                assert(before[k] == name);
            }
        }
        if wants_versions(rest, name) {
            let i = choose|i: int|
                0 <= i < rest.len() && (#[trigger] rest[i]).name == name && range_version(
                    rest[i].spec,
                ) is Some;
            assert(deps[i] == rest[i]);
        }
        if wants_versions(deps, name) && !wants_versions(rest, name) {
            let i = choose|i: int|
                0 <= i < deps.len() && (#[trigger] deps[i]).name == name && range_version(
                    deps[i].spec,
                ) is Some;
            if i < n {
                assert(rest[i] == deps[i]);
            }
            if !cache.contains_key(name) {
                assert(all.last() == name);
            }
        }
    }
}

/// Whether a dependency has the package in a range that starts from a version.
pub open spec fn wants_versions(deps: Seq<DependencyView>, name: Seq<char>) -> bool {
    exists|i: int|
        0 <= i < deps.len() && (#[trigger] deps[i]).name == name && range_version(deps[i].spec)
            is Some
}

/// Packages are asked for in the order in which the dependencies first have them: where one
/// is asked for before another, the first dependencies up to some have it and not the other.
pub proof fn law_asked_in_order(
    deps: Seq<DependencyView>,
    cache: Map<Seq<char>, StateView>,
    a: int,
    b: int,
)
    requires
        0 <= a < b < unknown_packages(deps, cache).len(),
    ensures
        exists|n: int|
            {
                &&& 0 <= n <= deps.len()
                &&& wants_versions(#[trigger] deps.take(n), unknown_packages(deps, cache)[a])
                &&& !wants_versions(deps.take(n), unknown_packages(deps, cache)[b])
            },
    decreases deps.len(),
{
    let rest = deps.drop_last();
    let (before, all) = (unknown_packages(rest, cache), unknown_packages(deps, cache));
    if b < before.len() {
        law_asked_in_order(rest, cache, a, b);
        let n = choose|n: int|
            {
                &&& 0 <= n <= rest.len()
                &&& wants_versions(#[trigger] rest.take(n), before[a])
                &&& !wants_versions(rest.take(n), before[b])
            };
        assert(rest.take(n) =~= deps.take(n));
    } else {
        let n = rest.len() as int;
        assert(deps.take(n) =~= rest);
        law_asked_for(rest, cache, all[a]);
        law_asked_for(rest, cache, all[b]);
        assert(all[a] == before[a]);
        assert(before.contains(all[a]));
        assert(!before.contains(all[b]));
        lemma_unknown(deps, cache, b);
        assert(wants_versions(deps.take(n), all[a]));
    }
}

/// What is asked for is not known.
proof fn lemma_unknown(deps: Seq<DependencyView>, cache: Map<Seq<char>, StateView>, i: int)
    requires
        0 <= i < unknown_packages(deps, cache).len(),
    ensures
        !cache.contains_key(unknown_packages(deps, cache)[i]),
{
    let all = unknown_packages(deps, cache);
    assert(all.contains(all[i]));
    law_asked_for(deps, cache, all[i]);
}

/// An edit of a `pnpm-workspace.yaml` makes its worktree unknown; another file changes
/// nothing.
pub proof fn law_edit(
    workspaces: Map<u64, WorkspaceState>,
    worktree: Option<u64>,
    id: u64,
    other: u64,
)
    ensures
        after_edit(workspaces, LensFile::PackageJson, worktree) == workspaces,
        after_edit(workspaces, LensFile::PnpmWorkspace, None) == workspaces,
        !after_edit(workspaces, LensFile::PnpmWorkspace, Some(id)).contains_key(id),
        other != id ==> {
            let edited = after_edit(workspaces, LensFile::PnpmWorkspace, Some(id));
            &&& edited.contains_key(other) == workspaces.contains_key(other)
            &&& workspaces.contains_key(other) ==> edited[other] == workspaces[other]
        },
{
}

/// A worktree is wanted exactly for a `package.json` of a project that has a dependency
/// which names something of the workspace.
pub proof fn law_wanted(
    deps: Seq<DependencyView>,
    kind: LensFile,
    worktree: Option<u64>,
    in_project: bool,
    id: u64,
)
    ensures
        wanted_worktree(deps, kind, worktree, in_project) == Some(id) <==> {
            &&& kind == LensFile::PackageJson
            &&& in_project
            &&& worktree == Some(id)
            &&& exists|i: int| 0 <= i < deps.len() && refers(#[trigger] deps[i])
        },
{
    assert forall|i: int| 0 <= i < deps.len() implies names_workspace(#[trigger] deps[i].spec)
        == refers(deps[i]) by {
        law_names_workspace(deps[i].spec);
    }
    if exists|i: int| 0 <= i < deps.len() && refers(#[trigger] deps[i]) {
        let i = choose|i: int| 0 <= i < deps.len() && refers(#[trigger] deps[i]);
        assert(names_workspace(deps[i].spec));
    }
    if exists|i: int| 0 <= i < deps.len() && names_workspace(#[trigger] deps[i].spec) {
        let i = choose|i: int| 0 <= i < deps.len() && names_workspace(#[trigger] deps[i].spec);
        assert(refers(deps[i]));
    }
}

/// Whether a dependency names something of the workspace.
pub open spec fn refers(dep: DependencyView) -> bool {
    begins(dep.spec, "catalog:"@) || begins(dep.spec, "workspace:"@)
}

/// The context of a worktree is there exactly once it has been built.
pub proof fn law_ready(cache: Map<u64, WorkspaceState>, worktree: u64, context: ContextView)
    ensures
        ready_context(cache, worktree) == Some(context) <==> cache.contains_key(worktree)
            && cache[worktree] is Ready && cache[worktree]->Ready_0@ == context,
{
}

/// The signature of a lens names what it shows: of badges the label and the version of
/// each, with bars between them.
pub proof fn law_signature_text(badges: Seq<BadgeView>, b: BadgeView, note: Seq<char>)
    ensures
        signature(LensView::Loading) == "loading"@,
        signature(LensView::Note(note)) == "note:"@ + note,
        signature(LensView::Tiers(Seq::empty())) == Seq::<char>::empty(),
        signature(LensView::Tiers(seq![b])) == b.label + ":"@ + version_text(b.version),
        badges.len() > 0 ==> signature(LensView::Tiers(badges.push(b))) == signature(
            LensView::Tiers(badges),
        ) + "|"@ + (b.label + ":"@ + version_text(b.version)),
{
    let no_badges = Seq::<BadgeView>::empty();
    assert(Seq::new(no_badges.len(), |i: int| badge_mark(no_badges[i])) =~= Seq::<
        Seq<char>,
    >::empty());
    let mark = |x: BadgeView| x.label + ":"@ + version_text(x.version);
    let marks = Seq::new(badges.len(), |i: int| mark(badges[i]));
    let one = seq![b];
    let none = Seq::<Seq<char>>::empty();
    assert(Seq::new(one.len(), |i: int| badge_mark(one[i])) =~= none.push(mark(b)));
    law_join(none, mark(b), "|"@);
    let more = badges.push(b);
    assert(Seq::new(badges.len(), |i: int| badge_mark(badges[i])) =~= marks);
    assert(Seq::new(more.len(), |i: int| badge_mark(more[i])) =~= marks.push(mark(b)));
    law_join(marks, mark(b), "|"@);
}

} // verus!
