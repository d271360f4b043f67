//! The lenses above the dependencies of a file: what each one shows, and which
//! packages must be asked for first.
use crate::manifest::{dep_views, listed, parse_deps, Dependency, DependencyView, LensFile};
use crate::text::{chars_of, decimal, join, joined, push_decimal, text_of, trim, trimmed, views};
use crate::text_map::TextMap;
use crate::tiers::{
    badge_views, compute_tiers, last_update, law_up_to_date, tier_badges, Badge, BadgeView, Tier,
};
use crate::version::{
    range_version, spec_version, version_le, version_text, version_views, Version, VersionView,
};
use crate::workspace::{
    hint, names_workspace, needs_workspace_context, ready_context, resolve_ref, ContextView,
    WorkspaceCache, WorkspaceContext, WorkspaceState,
};
use vstd::prelude::*;
use vstd::string::*;

verus! {

/// What a lens shows above a dependency. Every dependency that can be looked up
/// has exactly one from the start, so the layout does not shift as data lands.
#[derive(Debug)]
pub enum Lens {
    /// Shown while data from the registry or the workspace is missing.
    Loading,
    /// Chips that rewrite the version when they are clicked.
    Tiers(Vec<Badge>),
    /// A label to read only: nothing newer, what a spec stands for, or that
    /// nothing could be found.
    Note(String),
}

/// What a [`Lens`] says.
#[verifier::ext_equal]
pub enum LensView {
    Loading,
    Tiers(Seq<BadgeView>),
    Note(Seq<char>),
}

impl View for Lens {
    type V = LensView;

    open spec fn view(&self) -> LensView {
        match self {
            Lens::Loading => LensView::Loading,
            Lens::Tiers(badges) => LensView::Tiers(badge_views(badges@)),
            Lens::Note(text) => LensView::Note(text@),
        }
    }
}

impl Clone for Lens {
    fn clone(&self) -> (r: Lens)
        ensures
            r@ == self@,
    {
        match self {
            Lens::Loading => Lens::Loading,
            Lens::Tiers(badges) => {
                let mut copy: Vec<Badge> = Vec::new();
                let mut i: usize = 0;
                while i < badges.len()
                    invariant
                        i <= badges@.len(),
                        badge_views(copy@) == badge_views(badges@).take(i as int),
                    decreases badges@.len() - i,
                {
                    let ghost before = badge_views(copy@);
                    copy.push(badges[i].clone());
                    i += 1;
                    proof {
                        assert(badge_views(copy@) =~= before.push(badges@[i - 1]@));
                        assert(badge_views(badges@).take(i as int) =~= before.push(
                            badges@[i - 1]@,
                        ));
                    }
                }
                proof {
                    assert(badge_views(badges@).take(i as int) =~= badge_views(badges@));
                }
                Lens::Tiers(copy)
            },
            Lens::Note(text) => Lens::Note(text.clone()),
        }
    }
}

/// What is known of the versions of a package.
#[derive(Debug)]
pub enum PackageState {
    Fetching,
    /// All full releases from the oldest to the newest; none if they could not be had.
    Resolved(Vec<Version>),
}

/// What a [`PackageState`] says.
#[verifier::ext_equal]
pub enum StateView {
    Fetching,
    Resolved(Seq<VersionView>),
}

impl View for PackageState {
    type V = StateView;

    open spec fn view(&self) -> StateView {
        match self {
            PackageState::Fetching => StateView::Fetching,
            PackageState::Resolved(versions) => StateView::Resolved(version_views(versions@)),
        }
    }
}

/// What is known of the versions of all packages that were asked for.
#[derive(Debug)]
pub struct VersionCache {
    pub packages: TextMap<PackageState>,
}

impl View for VersionCache {
    type V = Map<Seq<char>, StateView>;

    open spec fn view(&self) -> Map<Seq<char>, StateView> {
        self.packages@.map_values(|state: PackageState| state@)
    }
}

impl VersionCache {
    pub fn new() -> (r: VersionCache)
        ensures
            r@ == Map::<Seq<char>, StateView>::empty(),
    {
        let r = VersionCache { packages: TextMap::new() };
        proof {
            assert(r@ =~= Map::<Seq<char>, StateView>::empty());
        }
        r
    }

    /// Stores what is known of a package.
    fn set(&mut self, package: String, state: PackageState)
        ensures
            final(self)@ == old(self)@.insert(package@, state@),
    {
        let ghost key = package@;
        self.packages.insert(package, state);
        proof {
            assert(self@ =~= old(self)@.insert(key, state@));
        }
    }

    /// Stores the versions of a package once they have been asked for.
    pub fn store(&mut self, package: String, versions: Vec<Version>)
        ensures
            final(self)@ == old(self)@.insert(
                package@,
                StateView::Resolved(version_views(versions@)),
            ),
    {
        self.set(package, PackageState::Resolved(versions));
    }
}

/// What a map holds under a key.
pub open spec fn state_of(cache: Map<Seq<char>, StateView>, name: Seq<char>) -> Option<StateView> {
    if cache.contains_key(name) {
        Some(cache[name])
    } else {
        None
    }
}

/// The badges that offer the updates of a version.
pub open spec fn update_badges(current: VersionView, versions: Seq<VersionView>) -> Seq<BadgeView> {
    tier_badges(
        last_update(versions, current, Tier::Patch),
        last_update(versions, current, Tier::Minor),
        last_update(versions, current, Tier::Major),
    )
}

/// The lens of a dependency whose versions are known.
pub open spec fn version_lens(current: VersionView, versions: Seq<VersionView>) -> LensView {
    let badges = update_badges(current, versions);
    if versions.len() == 0 {
        LensView::Note("× unavailable"@)
    } else if badges.len() == 0 {
        LensView::Note("✓ latest"@)
    } else {
        LensView::Tiers(badges)
    }
}

/// The lens of a dependency that names something of the workspace.
pub open spec fn workspace_lens(
    spec_text: Seq<char>,
    name: Seq<char>,
    workspace: Option<ContextView>,
) -> LensView {
    match workspace {
        Some(context) => match hint(spec_text, name, context) {
            Some(text) => LensView::Note(text),
            None => LensView::Note(trim(spec_text) + " (unresolved)"@),
        },
        None => LensView::Loading,
    }
}

/// Whether the registry is to be asked for the versions of a dependency.
pub open spec fn is_checkable(dep: DependencyView) -> bool {
    range_version(dep.spec) is Some
}

/// Whether a dependency has a lens.
pub open spec fn has_lens(dep: DependencyView) -> bool {
    is_checkable(dep) || names_workspace(dep.spec)
}

/// The lens of a dependency that has one, from what is known of its package and
/// of the workspace.
pub open spec fn lens_of(
    dep: DependencyView,
    state: Option<StateView>,
    workspace: Option<ContextView>,
) -> LensView {
    match (range_version(dep.spec), state) {
        (Some(current), Some(StateView::Resolved(versions))) => version_lens(current, versions),
        (Some(_), _) => LensView::Loading,
        (None, _) => workspace_lens(dep.spec, dep.name, workspace),
    }
}

/// A lens and the place it is to have.
#[derive(Debug)]
pub struct DesiredLens {
    pub context: String,
    pub name: String,
    pub row: u32,
    pub indent: u32,
    pub lens: Lens,
}

/// What a [`DesiredLens`] says.
#[verifier::ext_equal]
pub struct DesiredView {
    pub context: Seq<char>,
    pub name: Seq<char>,
    pub row: u32,
    pub indent: u32,
    pub lens: LensView,
}

impl View for DesiredLens {
    type V = DesiredView;

    open spec fn view(&self) -> DesiredView {
        DesiredView {
            context: self.context@,
            name: self.name@,
            row: self.row,
            indent: self.indent,
            lens: self.lens@,
        }
    }
}

/// What each of the lenses says.
pub open spec fn desired_views(desired: Seq<DesiredLens>) -> Seq<DesiredView> {
    Seq::new(desired.len(), |i: int| desired[i]@)
}

/// The lenses of the dependencies that have one, in their order.
pub open spec fn desired_lenses(
    deps: Seq<DependencyView>,
    cache: Map<Seq<char>, StateView>,
    workspace: Option<ContextView>,
) -> Seq<DesiredView>
    decreases deps.len(),
{
    if deps.len() == 0 {
        seq![]
    } else {
        let before = desired_lenses(deps.drop_last(), cache, workspace);
        let dep = deps.last();
        if has_lens(dep) {
            before.push(
                DesiredView {
                    context: dep.context,
                    name: dep.name,
                    row: dep.row,
                    indent: dep.indent,
                    lens: lens_of(dep, state_of(cache, dep.name), workspace),
                },
            )
        } else {
            before
        }
    }
}

/// The packages whose versions must be asked for, each once, in the order in
/// which they first occur.
pub open spec fn unknown_packages(deps: Seq<DependencyView>, cache: Map<Seq<char>, StateView>) -> Seq<
    Seq<char>,
>
    decreases deps.len(),
{
    if deps.len() == 0 {
        seq![]
    } else {
        let before = unknown_packages(deps.drop_last(), cache);
        let dep = deps.last();
        if is_checkable(dep) && !cache.contains_key(dep.name) && !before.contains(dep.name) {
            before.push(dep.name)
        } else {
            before
        }
    }
}

/// The cache with the given packages as asked for.
pub open spec fn with_fetching(
    cache: Map<Seq<char>, StateView>,
    packages: Seq<Seq<char>>,
) -> Map<Seq<char>, StateView>
    decreases packages.len(),
{
    if packages.len() == 0 {
        cache
    } else {
        with_fetching(cache, packages.drop_last()).insert(packages.last(), StateView::Fetching)
    }
}

/// The packages to ask for are unknown to the cache, and none is asked for twice.
pub proof fn lemma_unknown_packages(deps: Seq<DependencyView>, cache: Map<Seq<char>, StateView>)
    ensures
        forall|i: int|
            0 <= i < unknown_packages(deps, cache).len() ==> !cache.contains_key(
                #[trigger] unknown_packages(deps, cache)[i],
            ),
        unknown_packages(deps, cache).no_duplicates(),
    decreases deps.len(),
{
    if deps.len() > 0 {
        lemma_unknown_packages(deps.drop_last(), cache);
    }
}

/// What the cache holds once some packages count as asked for.
pub proof fn lemma_with_fetching(
    cache: Map<Seq<char>, StateView>,
    packages: Seq<Seq<char>>,
    name: Seq<char>,
)
    ensures
        with_fetching(cache, packages).contains_key(name) == (cache.contains_key(name)
            || packages.contains(name)),
        packages.contains(name) ==> with_fetching(cache, packages)[name] == StateView::Fetching,
        !packages.contains(name) && cache.contains_key(name) ==> with_fetching(
            cache,
            packages,
        )[name] == cache[name],
    decreases packages.len(),
{
    if packages.len() > 0 {
        let rest = packages.drop_last();
        lemma_with_fetching(cache, rest, name);
        assert(packages.contains(name) == (rest.contains(name) || packages.last() == name)) by {
            if rest.contains(name) {
                let i = choose|i: int| 0 <= i < rest.len() && rest[i] == name;
                assert(packages[i] == name);
            }
            if packages.contains(name) && packages.last() != name {
                let i = choose|i: int| 0 <= i < packages.len() && packages[i] == name;
                assert(rest[i] == name);
            }
        }
    }
}

/// The lens of a dependency whose versions are known.
fn lens_from_versions(current: &Version, versions: &Vec<Version>) -> (r: Lens)
    ensures
        r@ == version_lens(current@, version_views(versions@)),
{
    if versions.len() == 0 {
        Lens::Note("× unavailable".to_string())
    } else {
        let badges = compute_tiers(current, versions.as_slice()).badges();
        proof {
            assert(badges@.len() == badge_views(badges@).len());
        }
        if badges.len() == 0 {
            Lens::Note("✓ latest".to_string())
        } else {
            Lens::Tiers(badges)
        }
    }
}

/// What an optional context says.
pub open spec fn opt_context(context: Option<&WorkspaceContext>) -> Option<ContextView> {
    match context {
        Some(context) => Some(context@),
        None => None,
    }
}

/// The lens of a dependency that names something of the workspace.
fn lens_from_workspace(
    spec_text: &str,
    name: &str,
    workspace: Option<&WorkspaceContext>,
) -> (r: Lens)
    ensures
        r@ == workspace_lens(spec_text@, name@, opt_context(workspace)),
{
    match workspace {
        Some(context) => match resolve_ref(spec_text, name, Some(context)) {
            Some(text) => Lens::Note(text),
            None => {
                let chars = chars_of(spec_text);
                let mut text = text_of(trimmed(chars.as_slice()));
                text.append(" (unresolved)");
                Lens::Note(text)
            },
        },
        None => Lens::Loading,
    }
}

/// The lenses of a file, and the packages whose versions must be asked for.
#[derive(Debug)]
pub struct LensPlan {
    pub desired: Vec<DesiredLens>,
    pub to_fetch: Vec<String>,
}

/// Decides on the lenses of the dependencies. The packages that must be asked for
/// count as asked for from now on.
pub fn plan_lenses(
    deps: &Vec<Dependency>,
    workspace: Option<&WorkspaceContext>,
    cache: &mut VersionCache,
) -> (r: LensPlan)
    ensures
        desired_views(r.desired@) == desired_lenses(
            dep_views(deps@),
            old(cache)@,
            opt_context(workspace),
        ),
        views(r.to_fetch@) == unknown_packages(dep_views(deps@), old(cache)@),
        final(cache)@ == with_fetching(old(cache)@, views(r.to_fetch@)),
{
    let ghost start = cache@;
    let ghost all = dep_views(deps@);
    let ghost context = opt_context(workspace);
    let mut desired: Vec<DesiredLens> = Vec::new();
    let mut to_fetch: Vec<String> = Vec::new();
    let mut i: usize = 0;
    proof {
        assert(all.take(0) =~= seq![]);
        assert(desired_views(desired@) =~= seq![]);
        assert(views(to_fetch@) =~= seq![]);
    }
    while i < deps.len()
        invariant
            i <= deps@.len(),
            all == dep_views(deps@),
            context == opt_context(workspace),
            desired_views(desired@) == desired_lenses(all.take(i as int), start, context),
            views(to_fetch@) == unknown_packages(all.take(i as int), start),
            cache@ == with_fetching(start, views(to_fetch@)),
        decreases deps@.len() - i,
    {
        let dep = &deps[i];
        let ghost before = desired_views(desired@);
        let ghost asked = views(to_fetch@);
        proof {
            assert(all.take(i + 1).drop_last() =~= all.take(i as int));
            assert(all.take(i + 1).last() == dep@);
            lemma_unknown_packages(all.take(i as int), start);
            lemma_with_fetching(start, asked, dep@.name);
            if asked.contains(dep@.name) {
                let k = choose|k: int| 0 <= k < asked.len() && asked[k] == dep@.name;
                assert(!start.contains_key(asked[k]));
            }
        }
        let lens: Option<Lens> = match spec_version(dep.spec.as_str()) {
            Some(current) => {
                let known = cache.packages.get(dep.name.as_str());
                match known {
                    Some(PackageState::Resolved(versions)) => Some(
                        lens_from_versions(&current, versions),
                    ),
                    Some(PackageState::Fetching) => Some(Lens::Loading),
                    None => {
                        cache.set(dep.name.clone(), PackageState::Fetching);
                        to_fetch.push(dep.name.clone());
                        proof {
                            assert(views(to_fetch@) =~= asked.push(dep@.name));
                            assert(views(to_fetch@).drop_last() =~= asked);
                        }
                        Some(Lens::Loading)
                    },
                }
            },
            None => {
                if needs_workspace_context(dep.spec.as_str()) {
                    Some(lens_from_workspace(dep.spec.as_str(), dep.name.as_str(), workspace))
                } else {
                    None
                }
            },
        };
        if let Some(lens) = lens {
            desired.push(
                DesiredLens {
                    context: dep.context.clone(),
                    name: dep.name.clone(),
                    row: dep.row,
                    indent: dep.indent,
                    lens,
                },
            );
            proof {
                assert(desired_views(desired@) =~= before.push(desired@.last()@));
            }
        }
        i += 1;
    }
    proof {
        assert(all.take(i as int) =~= all);
    }
    LensPlan { desired, to_fetch }
}

/// The workspaces once the file with the given kind has changed: editing the
/// catalogs changes what specs stand for.
pub open spec fn after_edit(
    workspaces: Map<u64, WorkspaceState>,
    kind: LensFile,
    worktree: Option<u64>,
) -> Map<u64, WorkspaceState> {
    match (kind, worktree) {
        (LensFile::PnpmWorkspace, Some(id)) => workspaces.remove(id),
        _ => workspaces,
    }
}

/// The worktree whose context the dependencies of a file need. Only a
/// `package.json` of a project refers to catalogs and packages of the workspace.
pub open spec fn wanted_worktree(
    deps: Seq<DependencyView>,
    kind: LensFile,
    worktree: Option<u64>,
    in_project: bool,
) -> Option<u64> {
    if kind == LensFile::PackageJson && in_project && exists|i: int|
        0 <= i < deps.len() && names_workspace(#[trigger] deps[i].spec) {
        worktree
    } else {
        None
    }
}

/// Whether one of the dependencies names something of the workspace.
fn any_names_workspace(deps: &Vec<Dependency>) -> (r: bool)
    ensures
        r == exists|i: int|
            0 <= i < deps@.len() && names_workspace(#[trigger] dep_views(deps@)[i].spec),
{
    let mut i: usize = 0;
    while i < deps.len()
        invariant
            i <= deps@.len(),
            forall|k: int| 0 <= k < i ==> !names_workspace(#[trigger] dep_views(deps@)[k].spec),
        decreases deps@.len() - i,
    {
        if needs_workspace_context(deps[i].spec.as_str()) {
            assert(names_workspace(dep_views(deps@)[i as int].spec));
            return true;
        }
        i += 1;
    }
    false
}

/// What is to be done after a file was read again.
#[derive(Debug)]
pub struct LensUpdate {
    /// The lenses that the file is to show.
    pub desired: Vec<DesiredLens>,
    /// The packages whose versions are to be asked for.
    pub to_fetch: Vec<String>,
    /// Whether the context of the worktree is to be built.
    pub build_workspace: bool,
}

/// Reads the text of a lens file and decides on its lenses. `worktree` is the
/// worktree of the file, if it has one, and `in_project` whether the editor
/// belongs to a project.
pub fn update_version_lens(
    text: &str,
    kind: LensFile,
    worktree: Option<u64>,
    in_project: bool,
    workspaces: &mut WorkspaceCache,
    cache: &mut VersionCache,
) -> (r: LensUpdate)
    ensures
        ({
            let deps = listed(text@, kind);
            let edited = after_edit(old(workspaces)@, kind, worktree);
            let wanted = wanted_worktree(deps, kind, worktree, in_project);
            let context = match wanted {
                Some(id) => ready_context(edited, id),
                None => None,
            };
            &&& r.build_workspace == (wanted matches Some(id) && !edited.contains_key(id))
            &&& final(workspaces)@ == if r.build_workspace {
                edited.insert(wanted->0, WorkspaceState::Building)
            } else {
                edited
            }
            &&& desired_views(r.desired@) == desired_lenses(deps, old(cache)@, context)
            &&& views(r.to_fetch@) == unknown_packages(deps, old(cache)@)
            &&& final(cache)@ == with_fetching(old(cache)@, views(r.to_fetch@))
        }),
{
    let deps = parse_deps(text, kind);
    if kind == LensFile::PnpmWorkspace {
        if let Some(id) = worktree {
            workspaces.forget(id);
        }
    }
    let wanted: Option<u64> = if kind == LensFile::PackageJson && in_project && any_names_workspace(
        &deps,
    ) {
        worktree
    } else {
        None
    };
    let build_workspace = match wanted {
        Some(id) => workspaces.request(id),
        None => false,
    };
    let context = match wanted {
        Some(id) => workspaces.context(id),
        None => None,
    };
    let plan = plan_lenses(&deps, context, cache);
    LensUpdate { desired: plan.desired, to_fetch: plan.to_fetch, build_workspace }
}

/// How a badge counts in the signature of its lens.
pub open spec fn badge_mark(badge: BadgeView) -> Seq<char> {
    badge.label + ":"@ + version_text(badge.version)
}

/// The signature of some badges.
pub open spec fn badges_mark(badges: Seq<BadgeView>) -> Seq<char> {
    join(Seq::new(badges.len(), |i: int| badge_mark(badges[i])), "|"@)
}

/// The signature of a lens: it changes when what the lens shows changes.
pub open spec fn signature(lens: LensView) -> Seq<char> {
    match lens {
        LensView::Loading => "loading"@,
        LensView::Tiers(badges) => badges_mark(badges),
        LensView::Note(text) => "note:"@ + text,
    }
}

pub fn badge_signature(badges: &Vec<Badge>) -> (r: String)
    ensures
        r@ == badges_mark(badge_views(badges@)),
{
    let mut marks: Vec<String> = Vec::new();
    let ghost all = badge_views(badges@);
    let mut i: usize = 0;
    while i < badges.len()
        invariant
            i <= badges@.len(),
            all == badge_views(badges@),
            views(marks@) == Seq::new(i as nat, |k: int| badge_mark(all[k])),
        decreases badges@.len() - i,
    {
        let ghost before = views(marks@);
        let mut mark = badges[i].label.clone();
        mark.append(":");
        mark.append(badges[i].version.to_text().as_str());
        marks.push(mark);
        i += 1;
        proof {
            assert(views(marks@) =~= before.push(mark@));
            assert(views(marks@) =~= Seq::new(i as nat, |k: int| badge_mark(all[k])));
        }
    }
    joined(&marks, "|")
}

pub fn lens_signature(lens: &Lens) -> (r: String)
    ensures
        r@ == signature(lens@),
{
    match lens {
        Lens::Loading => "loading".to_string(),
        Lens::Tiers(badges) => badge_signature(badges),
        Lens::Note(text) => {
            let mut mark = "note:".to_string();
            mark.append(text.as_str());
            mark
        },
    }
}

/// What is drawn for a lens.
#[derive(Debug)]
pub enum Rendering {
    /// One chip for each badge.
    Chips(Vec<Badge>),
    /// A muted label.
    Muted(String),
}

/// Decides what is drawn for a lens.
pub fn build_renderer(lens: Lens) -> (r: Rendering)
    ensures
        match (lens@, r) {
            (LensView::Tiers(badges), Rendering::Chips(chips)) => badge_views(chips@) == badges,
            (LensView::Loading, Rendering::Muted(text)) => text@ == "checking…"@,
            (LensView::Note(note), Rendering::Muted(text)) => text@ == note,
            _ => false,
        },
{
    match lens {
        Lens::Tiers(badges) => Rendering::Chips(badges),
        Lens::Loading => Rendering::Muted("checking…".to_string()),
        Lens::Note(text) => Rendering::Muted(text),
    }
}

/// The element id of a chip: its dependency and its place among the chips.
pub fn chip_id(context: &str, name: &str, index: u64) -> (r: String)
    ensures
        r@ == "version-lens-"@ + context@ + "-"@ + name@ + "-"@ + decimal(index as nat),
{
    let mut id = "version-lens-".to_string();
    id.append(context);
    id.append("-");
    id.append(name);
    id.append("-");
    push_decimal(&mut id, index);
    id
}

/// The place of a lens: its dependency, its row and its indentation.
pub open spec fn place(lens: DesiredView) -> (Seq<char>, Seq<char>, u32, u32) {
    (lens.context, lens.name, lens.row, lens.indent)
}

/// The places of the lenses.
pub open spec fn places(desired: Seq<DesiredView>) -> Seq<(Seq<char>, Seq<char>, u32, u32)> {
    Seq::new(desired.len(), |i: int| place(desired[i]))
}

/// The dependencies that have a lens.
pub open spec fn shown_deps(deps: Seq<DependencyView>) -> Seq<DependencyView> {
    deps.filter(|dep: DependencyView| has_lens(dep))
}

/// The places of the dependencies.
pub open spec fn dep_places(deps: Seq<DependencyView>) -> Seq<(Seq<char>, Seq<char>, u32, u32)> {
    Seq::new(deps.len(), |i: int| (deps[i].context, deps[i].name, deps[i].row, deps[i].indent))
}

/// Every dependency that can be looked up has exactly one lens, in the order of the
/// dependencies, whatever is known yet.
pub proof fn law_one_lens_each(
    deps: Seq<DependencyView>,
    cache: Map<Seq<char>, StateView>,
    workspace: Option<ContextView>,
)
    ensures
        places(desired_lenses(deps, cache, workspace)) == dep_places(shown_deps(deps)),
    decreases deps.len(),
{
    reveal(Seq::filter);
    let shown = shown_deps(deps);
    let all = desired_lenses(deps, cache, workspace);
    if deps.len() > 0 {
        let rest = deps.drop_last();
        let dep = deps.last();
        law_one_lens_each(rest, cache, workspace);
        let before = shown_deps(rest);
        let old_places = places(desired_lenses(rest, cache, workspace));
        if has_lens(dep) {
            assert(shown == before.push(dep));
            let here = (dep.context, dep.name, dep.row, dep.indent);
            assert(places(all) =~= old_places.push(here));
            assert(dep_places(shown) =~= dep_places(before).push(here));
        } else {
            assert(shown == before);
        }
    } else {
        assert(places(all) =~= dep_places(shown));
    }
}

/// The layout does not shift as data lands: the same dependencies have their lenses in
/// the same places, whatever is known of packages and of the workspace.
pub proof fn law_layout(
    deps: Seq<DependencyView>,
    cache: Map<Seq<char>, StateView>,
    workspace: Option<ContextView>,
    later_cache: Map<Seq<char>, StateView>,
    later_workspace: Option<ContextView>,
)
    ensures
        places(desired_lenses(deps, cache, workspace)) == places(
            desired_lenses(deps, later_cache, later_workspace),
        ),
{
    law_one_lens_each(deps, cache, workspace);
    law_one_lens_each(deps, later_cache, later_workspace);
}

/// A package is asked for once: what one file asked for, no file asks for again, in
/// whatever way the cache has grown since, and each file asks for a package once.
pub proof fn law_fetched_once(
    deps: Seq<DependencyView>,
    cache: Map<Seq<char>, StateView>,
    later_deps: Seq<DependencyView>,
    later_cache: Map<Seq<char>, StateView>,
)
    requires
        with_fetching(cache, unknown_packages(deps, cache)).dom().subset_of(later_cache.dom()),
    ensures
        unknown_packages(deps, cache).no_duplicates(),
        forall|name: Seq<char>|
            unknown_packages(deps, cache).contains(name) ==> !(#[trigger] unknown_packages(
                later_deps,
                later_cache,
            ).contains(name)),
{
    let asked = unknown_packages(deps, cache);
    let later = unknown_packages(later_deps, later_cache);
    lemma_unknown_packages(deps, cache);
    lemma_unknown_packages(later_deps, later_cache);
    assert forall|name: Seq<char>| asked.contains(name) implies !(#[trigger] later.contains(
        name,
    )) by {
        lemma_with_fetching(cache, asked, name);
        assert(with_fetching(cache, asked).dom().contains(name));
        if later.contains(name) {
            let i = choose|i: int| 0 <= i < later.len() && later[i] == name;
            assert(!later_cache.contains_key(later[i]));
        }
    }
}

/// Every package that a lens waits for has been asked for.
pub proof fn law_all_asked(
    deps: Seq<DependencyView>,
    cache: Map<Seq<char>, StateView>,
    i: int,
)
    requires
        0 <= i < deps.len(),
        is_checkable(deps[i]),
    ensures
        with_fetching(cache, unknown_packages(deps, cache)).contains_key(deps[i].name),
{
    lemma_asked(deps, cache, i);
    lemma_with_fetching(cache, unknown_packages(deps, cache), deps[i].name);
}

proof fn lemma_asked(deps: Seq<DependencyView>, cache: Map<Seq<char>, StateView>, i: int)
    requires
        0 <= i < deps.len(),
        is_checkable(deps[i]),
    ensures
        cache.contains_key(deps[i].name) || unknown_packages(deps, cache).contains(deps[i].name),
    decreases deps.len(),
{
    let name = deps[i].name;
    let rest = deps.drop_last();
    let before = unknown_packages(rest, cache);
    let all = unknown_packages(deps, cache);
    assert forall|n: Seq<char>| before.contains(n) implies all.contains(n) by {
        let k = choose|k: int| 0 <= k < before.len() && before[k] == n;
        assert(all[k] == n);
    }
    if i < rest.len() {
        lemma_asked(rest, cache, i);
    } else if !cache.contains_key(name) && !before.contains(name) {
        assert(all.last() == name);
        assert(all.contains(name));
    }
}

/// Once the versions of all packages and the workspace are known, no lens waits.
pub proof fn law_nothing_loading(
    deps: Seq<DependencyView>,
    cache: Map<Seq<char>, StateView>,
    workspace: ContextView,
)
    requires
        forall|i: int|
            0 <= i < deps.len() && is_checkable(#[trigger] deps[i]) ==> cache.contains_key(
                deps[i].name,
            ) && cache[deps[i].name] is Resolved,
    ensures
        forall|i: int|
            0 <= i < desired_lenses(deps, cache, Some(workspace)).len() ==> !((
            #[trigger] desired_lenses(deps, cache, Some(workspace))[i]).lens is Loading),
    decreases deps.len(),
{
    if deps.len() > 0 {
        let rest = deps.drop_last();
        assert forall|i: int| 0 <= i < rest.len() && is_checkable(#[trigger] rest[i]) implies
            cache.contains_key(rest[i].name) && cache[rest[i].name] is Resolved by {
            assert(is_checkable(deps[i]));
        }
        law_nothing_loading(rest, cache, workspace);
        assert(deps[deps.len() - 1] == deps.last());
    }
}

/// A lens says that the version is the latest exactly where versions are known and none
/// of them is newer.
pub proof fn law_latest(current: VersionView, versions: Seq<VersionView>)
    ensures
        (version_lens(current, versions) == LensView::Note("✓ latest"@)) == (versions.len() > 0
            && forall|i: int|
            0 <= i < versions.len() ==> version_le(#[trigger] versions[i], current)),
        (version_lens(current, versions) is Tiers) == exists|i: int|
            0 <= i < versions.len() && !version_le(#[trigger] versions[i], current),
{
    law_up_to_date(versions, current);
    reveal_strlit("✓ latest");
    reveal_strlit("× unavailable");
    assert("✓ latest"@[0] == '✓' && "× unavailable"@[0] == '×');
    let badges = update_badges(current, versions);
    if versions.len() == 0 {
        assert(version_lens(current, versions) is Note);
    } else if forall|i: int|
        0 <= i < versions.len() ==> version_le(#[trigger] versions[i], current) {
        assert(badges =~= seq![]);
    } else {
        assert(badges.len() > 0);
    }
}

} // verus!
