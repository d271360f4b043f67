//! What a pnpm workspace says of versions: its catalogs and its own packages, and
//! what the `catalog:` and `workspace:` specs of a `package.json` stand for.
use crate::catalogs::{catalog_deps, parse_pnpm_catalogs};
use crate::json::{json_document, opt_view, parse_json, Json, JsonView};
use crate::manifest::{dep_views, DependencyView, PACKAGE_JSON};
use crate::text::{
    chars_of, find_text, has_prefix, pieces, same_text, skip, split, text_of, text_position, trim,
    trimmed, views,
};
use crate::text_map::TextMap;
use crate::version::range_version;
use std::collections::HashMap;
use vstd::prelude::*;
use vstd::std_specs::hash::*;
use vstd::string::*;

verus! {

/// The texts under the keys of a map.
pub open spec fn texts(m: Map<Seq<char>, String>) -> Map<Seq<char>, Seq<char>> {
    m.map_values(|s: String| s@)
}

/// The texts under the keys of the maps in a map.
pub open spec fn nested_texts(m: Map<Seq<char>, TextMap<String>>) -> Map<
    Seq<char>,
    Map<Seq<char>, Seq<char>>,
> {
    m.map_values(|inner: TextMap<String>| texts(inner@))
}

/// What the `catalog:` and `workspace:` specs of a worktree are resolved against.
#[derive(Debug)]
pub struct WorkspaceContext {
    /// The default catalog: package to version spec.
    pub default_catalog: TextMap<String>,
    /// The named catalogs: catalog to package to version spec.
    pub named_catalogs: TextMap<TextMap<String>>,
    /// The packages of the worktree itself: package to version.
    pub local_versions: TextMap<String>,
}

/// What a [`WorkspaceContext`] says.
#[verifier::ext_equal]
pub struct ContextView {
    pub default_catalog: Map<Seq<char>, Seq<char>>,
    pub named_catalogs: Map<Seq<char>, Map<Seq<char>, Seq<char>>>,
    pub local_versions: Map<Seq<char>, Seq<char>>,
}

impl View for WorkspaceContext {
    type V = ContextView;

    open spec fn view(&self) -> ContextView {
        ContextView {
            default_catalog: texts(self.default_catalog@),
            named_catalogs: nested_texts(self.named_catalogs@),
            local_versions: texts(self.local_versions@),
        }
    }
}

impl Default for WorkspaceContext {
    fn default() -> (r: WorkspaceContext)
        ensures
            r@ == (ContextView {
                default_catalog: Map::empty(),
                named_catalogs: Map::empty(),
                local_versions: Map::empty(),
            }),
    {
        let r = WorkspaceContext {
            default_catalog: TextMap::new(),
            named_catalogs: TextMap::new(),
            local_versions: TextMap::new(),
        };
        proof {
            assert(r@.default_catalog =~= Map::empty());
            assert(r@.named_catalogs =~= Map::empty());
            assert(r@.local_versions =~= Map::empty());
        }
        r
    }
}

/// The default catalog that the entries of a workspace file make. Of two entries
/// for one package the later one counts.
pub open spec fn default_catalog(deps: Seq<DependencyView>) -> Map<Seq<char>, Seq<char>>
    decreases deps.len(),
{
    if deps.len() == 0 {
        Map::empty()
    } else {
        let before = default_catalog(deps.drop_last());
        let dep = deps.last();
        if dep.context == "catalog"@ {
            before.insert(dep.name, dep.spec)
        } else {
            before
        }
    }
}

/// The contents of a named catalog; an unknown one is empty.
pub open spec fn catalog_in(
    named: Map<Seq<char>, Map<Seq<char>, Seq<char>>>,
    catalog: Seq<char>,
) -> Map<Seq<char>, Seq<char>> {
    if named.contains_key(catalog) {
        named[catalog]
    } else {
        Map::empty()
    }
}

/// The named catalogs that the entries of a workspace file make.
pub open spec fn named_catalogs(deps: Seq<DependencyView>) -> Map<
    Seq<char>,
    Map<Seq<char>, Seq<char>>,
>
    decreases deps.len(),
{
    if deps.len() == 0 {
        Map::empty()
    } else {
        let before = named_catalogs(deps.drop_last());
        let dep = deps.last();
        let prefix = "catalogs."@;
        if dep.context != "catalog"@ && prefix.is_prefix_of(dep.context) {
            let catalog = dep.context.skip(prefix.len() as int);
            before.insert(catalog, catalog_in(before, catalog).insert(dep.name, dep.spec))
        } else {
            before
        }
    }
}

/// Puts a version spec into a named catalog, which it opens if need be.
fn insert_nested(
    named: &mut TextMap<TextMap<String>>,
    catalog: String,
    name: String,
    spec_text: String,
)
    ensures
        nested_texts(final(named)@) == nested_texts(old(named)@).insert(
            catalog@,
            catalog_in(nested_texts(old(named)@), catalog@).insert(name@, spec_text@),
        ),
{
    let ghost key = catalog@;
    let ghost before = nested_texts(named@);
    let mut inner: TextMap<String> = match named.remove(catalog.as_str()) {
        Some(inner) => inner,
        None => TextMap::new(),
    };
    proof {
        assert(texts(inner@) =~= catalog_in(before, key));
    }
    let ghost old_inner = inner@;
    let ghost (n, s) = (name@, spec_text@);
    inner.insert(name, spec_text);
    proof {
        assert(texts(inner@) =~= texts(old_inner).insert(n, s));
    }
    named.insert(catalog, inner);
    proof {
        assert(nested_texts(named@) =~= before.insert(key, catalog_in(before, key).insert(n, s)));
    }
}

/// Splits a `pnpm-workspace.yaml` into its default catalog and its named catalogs.
pub fn parse_workspace_catalogs(yaml: &str) -> (r: (TextMap<String>, TextMap<TextMap<String>>))
    ensures
        texts(r.0@) == default_catalog(catalog_deps(yaml@)),
        nested_texts(r.1@) == named_catalogs(catalog_deps(yaml@)),
{
    let deps = parse_pnpm_catalogs(yaml);
    let prefix = chars_of("catalogs.");
    let mut fallback: TextMap<String> = TextMap::new();
    let mut named: TextMap<TextMap<String>> = TextMap::new();
    let ghost all = dep_views(deps@);
    let mut i: usize = 0;
    proof {
        assert(all.take(0) =~= seq![]);
        assert(texts(fallback@) =~= Map::empty());
        assert(nested_texts(named@) =~= Map::empty());
    }
    while i < deps.len()
        invariant
            i <= deps@.len(),
            all == dep_views(deps@),
            prefix@ == "catalogs."@,
            texts(fallback@) == default_catalog(all.take(i as int)),
            nested_texts(named@) == named_catalogs(all.take(i as int)),
        decreases deps@.len() - i,
    {
        let dep = &deps[i];
        proof {
            assert(all.take(i + 1).drop_last() =~= all.take(i as int));
            assert(all.take(i + 1).last() == dep@);
        }
        if same_text(dep.context.as_str(), "catalog") {
            let ghost before = fallback@;
            fallback.insert(dep.name.clone(), dep.spec.clone());
            proof {
                assert(texts(fallback@) =~= texts(before).insert(dep.name@, dep.spec@));
            }
        } else {
            let context = chars_of(dep.context.as_str());
            if has_prefix(context.as_slice(), prefix.as_slice()) {
                let catalog = text_of(skip(context.as_slice(), prefix.len()));
                insert_nested(&mut named, catalog, dep.name.clone(), dep.spec.clone());
            }
        }
        i += 1;
    }
    proof {
        assert(all.take(i as int) =~= all);
    }
    (fallback, named)
}

/// Whether a spec names something of the workspace rather than a version range.
pub open spec fn names_workspace(spec_text: Seq<char>) -> bool {
    let s = trim(spec_text);
    "catalog:"@.is_prefix_of(s) || "workspace:"@.is_prefix_of(s)
}

/// Whether a spec must be resolved against the workspace rather than the npm registry.
pub fn needs_workspace_context(spec_text: &str) -> (r: bool)
    ensures
        r == names_workspace(spec_text@),
{
    let chars = chars_of(spec_text);
    let s = trimmed(chars.as_slice());
    let catalog = chars_of("catalog:");
    let workspace = chars_of("workspace:");
    has_prefix(s, catalog.as_slice()) || has_prefix(s, workspace.as_slice())
}

/// What a map holds under a key.
pub open spec fn lookup(m: Map<Seq<char>, Seq<char>>, key: Seq<char>) -> Option<Seq<char>> {
    if m.contains_key(key) {
        Some(m[key])
    } else {
        None
    }
}

/// The version that a `catalog:` or `workspace:` spec for a package stands for.
/// `catalog:` and `catalog:default` name the default catalog.
pub open spec fn referred(spec_text: Seq<char>, name: Seq<char>, context: ContextView) -> Option<
    Seq<char>,
> {
    let s = trim(spec_text);
    let prefix = "catalog:"@;
    if prefix.is_prefix_of(s) {
        let catalog = s.skip(prefix.len() as int);
        if catalog.len() == 0 || catalog == "default"@ {
            lookup(context.default_catalog, name)
        } else {
            lookup(catalog_in(context.named_catalogs, catalog), name)
        }
    } else if "workspace:"@.is_prefix_of(s) {
        lookup(context.local_versions, name)
    } else {
        None
    }
}

/// The hint that shows what a spec stands for.
pub open spec fn hint(spec_text: Seq<char>, name: Seq<char>, context: ContextView) -> Option<
    Seq<char>,
> {
    match referred(spec_text, name, context) {
        Some(version) => Some(trim(spec_text) + " → "@ + version),
        None => None,
    }
}

/// The text under a key, if any.
fn find<'a>(m: &'a TextMap<String>, name: &str) -> (r: Option<&'a String>)
    ensures
        match r {
            Some(version) => lookup(texts(m@), name@) == Some(version@),
            None => lookup(texts(m@), name@) is None,
        },
{
    m.get(name)
}

/// Resolves a `catalog:` or `workspace:` spec to a hint of what it points at.
/// `None` if there is no context yet or it does not know the reference.
pub fn resolve_ref(spec_text: &str, name: &str, context: Option<&WorkspaceContext>) -> (r: Option<
    String,
>)
    ensures
        match context {
            Some(context) => match hint(spec_text@, name@, context@) {
                Some(text) => r matches Some(s) && s@ == text,
                None => r is None,
            },
            None => r is None,
        },
{
    let context = match context {
        Some(context) => context,
        None => {
            return None;
        },
    };
    let chars = chars_of(spec_text);
    let s = trimmed(chars.as_slice());
    let prefix = chars_of("catalog:");
    let local = chars_of("workspace:");
    let version = if has_prefix(s, prefix.as_slice()) {
        let catalog = text_of(skip(s, prefix.len()));
        if catalog.as_str().is_empty() || same_text(catalog.as_str(), "default") {
            find(&context.default_catalog, name)
        } else {
            match context.named_catalogs.get(catalog.as_str()) {
                Some(inner) => find(inner, name),
                None => None,
            }
        }
    } else if has_prefix(s, local.as_slice()) {
        find(&context.local_versions, name)
    } else {
        None
    };
    match version {
        Some(version) => {
            let mut text = text_of(s);
            text.append(" → ");
            text.append(version.as_str());
            Some(text)
        },
        None => None,
    }
}

/// The name and the version of the package that a manifest describes.
pub open spec fn name_and_version(document: JsonView) -> Option<(Seq<char>, Seq<char>)> {
    match (document.get_text("name"@), document.get_text("version"@)) {
        (Some(name), Some(version)) => Some((name, version)),
        _ => None,
    }
}

/// The name and the version of the package that the text of a manifest describes.
pub open spec fn manifest_package(text: Seq<char>) -> Option<(Seq<char>, Seq<char>)> {
    match json_document(text) {
        Some(document) => name_and_version(document),
        None => None,
    }
}

/// What a pair of strings says.
pub open spec fn pair_view(pair: Option<(String, String)>) -> Option<(Seq<char>, Seq<char>)> {
    match pair {
        Some((a, b)) => Some((a@, b@)),
        None => None,
    }
}

/// The `name` and the `version` of a `package.json`.
pub fn package_name_version(document: &Json) -> (r: Option<(String, String)>)
    ensures
        pair_view(r) == name_and_version(document@),
{
    match document.get_text("name") {
        Some(name) => match document.get_text("version") {
            Some(version) => Some((name, version)),
            None => None,
        },
        None => None,
    }
}

/// Extracts the `name` and the `version` from the text of a `package.json`.
pub fn parse_package_name_version(text: &str) -> (r: Option<(String, String)>)
    ensures
        pair_view(r) == manifest_package(text@),
{
    match parse_json(text) {
        Some(document) => package_name_version(&document),
        None => None,
    }
}

/// Whether a file of a worktree is the manifest of one of its packages.
pub open spec fn is_manifest_path(path: Seq<char>) -> bool {
    split(path, '/').last() == PACKAGE_JSON@ && find_text(path, "node_modules"@) is None
}

/// Whether a file of a worktree is the manifest of one of its packages: it is
/// named `package.json`, and its path does not lead through `node_modules`.
pub fn is_workspace_manifest(path: &str) -> (r: bool)
    ensures
        r == is_manifest_path(path@),
{
    let chars = chars_of(path);
    let steps = pieces(chars.as_slice(), '/');
    let modules = chars_of("node_modules");
    proof {
        assert(split(path@, '/').last() == views(steps@).last());
    }
    same_text(steps[steps.len() - 1].as_str(), PACKAGE_JSON) && text_position(
        chars.as_slice(),
        modules.as_slice(),
    ).is_none()
}

/// The versions of the packages that the manifests describe. Of two manifests for
/// one package the later one counts.
pub open spec fn local_versions(manifests: Seq<Seq<char>>) -> Map<Seq<char>, Seq<char>>
    decreases manifests.len(),
{
    if manifests.len() == 0 {
        Map::empty()
    } else {
        let before = local_versions(manifests.drop_last());
        match manifest_package(manifests.last()) {
            Some((name, version)) => before.insert(name, version),
            None => before,
        }
    }
}

/// What the files of a workspace say: the text of its `pnpm-workspace.yaml`, if
/// that can be read, and the texts of its manifests.
pub open spec fn workspace_of(yaml: Option<Seq<char>>, manifests: Seq<Seq<char>>) -> ContextView {
    ContextView {
        default_catalog: match yaml {
            Some(yaml) => default_catalog(catalog_deps(yaml)),
            None => Map::empty(),
        },
        named_catalogs: match yaml {
            Some(yaml) => named_catalogs(catalog_deps(yaml)),
            None => Map::empty(),
        },
        local_versions: local_versions(manifests),
    }
}

/// Builds the context from the text of the `pnpm-workspace.yaml`, if that could be
/// read, and the texts of the manifests that could.
pub fn build_workspace_context(yaml: &Option<String>, manifests: &Vec<String>) -> (r:
    WorkspaceContext)
    ensures
        r@ == workspace_of(opt_view(*yaml), views(manifests@)),
{
    let mut context = WorkspaceContext::default();
    if let Some(yaml) = yaml {
        let (fallback, named) = parse_workspace_catalogs(yaml.as_str());
        context.default_catalog = fallback;
        context.named_catalogs = named;
    }
    let ghost start = context@;
    let ghost all = views(manifests@);
    let mut i: usize = 0;
    proof {
        assert(all.take(0) =~= seq![]);
    }
    while i < manifests.len()
        invariant
            i <= manifests@.len(),
            all == views(manifests@),
            context@ == (ContextView { local_versions: local_versions(all.take(i as int)), ..start }),
        decreases manifests@.len() - i,
    {
        proof {
            assert(all.take(i + 1).drop_last() =~= all.take(i as int));
            assert(all.take(i + 1).last() == manifests@[i as int]@);
        }
        if let Some((name, version)) = parse_package_name_version(manifests[i].as_str()) {
            let ghost before = context.local_versions@;
            let ghost (n, v) = (name@, version@);
            context.local_versions.insert(name, version);
            proof {
                assert(texts(context.local_versions@) =~= texts(before).insert(n, v));
            }
        }
        i += 1;
    }
    proof {
        assert(all.take(i as int) =~= all);
    }
    context
}

/// What is known of the workspace of one worktree.
#[derive(Debug)]
pub enum WorkspaceState {
    Building,
    Ready(WorkspaceContext),
}

/// What is known of the workspaces of the open worktrees.
#[derive(Debug)]
pub struct WorkspaceCache {
    pub by_worktree: HashMap<u64, WorkspaceState>,
}

impl View for WorkspaceCache {
    type V = Map<u64, WorkspaceState>;

    open spec fn view(&self) -> Map<u64, WorkspaceState> {
        self.by_worktree@
    }
}

/// The context of a worktree, once it is built.
pub open spec fn ready_context(cache: Map<u64, WorkspaceState>, worktree: u64) -> Option<
    ContextView,
> {
    if cache.contains_key(worktree) {
        match cache[worktree] {
            WorkspaceState::Ready(context) => Some(context@),
            WorkspaceState::Building => None,
        }
    } else {
        None
    }
}

impl WorkspaceCache {
    pub fn new() -> (r: WorkspaceCache)
        ensures
            r@ == Map::<u64, WorkspaceState>::empty(),
    {
        WorkspaceCache { by_worktree: HashMap::new() }
    }

    /// The context of a worktree, once it is built.
    pub fn context(&self, worktree: u64) -> (r: Option<&WorkspaceContext>)
        ensures
            match r {
                Some(context) => ready_context(self@, worktree) == Some(context@),
                None => ready_context(self@, worktree) is None,
            },
    {
        broadcast use group_hash_axioms;

        match self.by_worktree.get(&worktree) {
            Some(WorkspaceState::Ready(context)) => Some(context),
            _ => None,
        }
    }

    /// Asks for the context of a worktree. `true` the first time it is needed: the
    /// caller is to build it, and it counts as being built from now on.
    pub fn request(&mut self, worktree: u64) -> (r: bool)
        ensures
            r == !old(self)@.contains_key(worktree),
            final(self)@ == if r {
                old(self)@.insert(worktree, WorkspaceState::Building)
            } else {
                old(self)@
            },
    {
        broadcast use group_hash_axioms;

        if self.by_worktree.contains_key(&worktree) {
            false
        } else {
            self.by_worktree.insert(worktree, WorkspaceState::Building);
            true
        }
    }

    /// Stores the context that was built for a worktree.
    pub fn finish(&mut self, worktree: u64, context: WorkspaceContext)
        ensures
            final(self)@ == old(self)@.insert(worktree, WorkspaceState::Ready(context)),
    {
        broadcast use group_hash_axioms;

        self.by_worktree.insert(worktree, WorkspaceState::Ready(context));
    }

    /// Forgets a worktree: its catalogs changed, or its files cannot be listed.
    pub fn forget(&mut self, worktree: u64)
        ensures
            final(self)@ == old(self)@.remove(worktree),
    {
        broadcast use group_hash_axioms;

        self.by_worktree.remove(&worktree);
        proof {
            assert(self@ =~= old(self)@.remove(worktree));
        }
    }
}

/// The version text of the last entry with the given context and name.
pub open spec fn last_spec(deps: Seq<DependencyView>, context: Seq<char>, name: Seq<char>) -> Option<
    Seq<char>,
>
    decreases deps.len(),
{
    if deps.len() == 0 {
        None
    } else if deps.last().context == context && deps.last().name == name {
        Some(deps.last().spec)
    } else {
        last_spec(deps.drop_last(), context, name)
    }
}

proof fn lemma_default_catalog(deps: Seq<DependencyView>, name: Seq<char>)
    ensures
        lookup(default_catalog(deps), name) == last_spec(deps, "catalog"@, name),
    decreases deps.len(),
{
    if deps.len() > 0 {
        lemma_default_catalog(deps.drop_last(), name);
    }
}

proof fn lemma_named_catalog(deps: Seq<DependencyView>, catalog: Seq<char>, name: Seq<char>)
    ensures
        lookup(catalog_in(named_catalogs(deps), catalog), name) == last_spec(
            deps,
            "catalogs."@ + catalog,
            name,
        ),
    decreases deps.len(),
{
    if deps.len() > 0 {
        lemma_named_catalog(deps.drop_last(), catalog, name);
        let prefix = "catalogs."@;
        let context = prefix + catalog;
        let dep = deps.last();
        reveal_strlit("catalogs.");
        reveal_strlit("catalog");
        if dep.context == context {
            assert(context.len() != "catalog"@.len());
            assert(prefix =~= context.subrange(0, prefix.len() as int));
            assert(prefix.is_prefix_of(context));
            assert(context.skip(prefix.len() as int) =~= catalog);
        } else if prefix.is_prefix_of(dep.context) {
            let other = dep.context.skip(prefix.len() as int);
            assert(dep.context =~= prefix + other);
            assert(other != catalog);
        }
    }
}

/// `catalog:` and `catalog:default` stand for the version that the last entry for the
/// package in the default catalog has, and `catalog:` with another name for the one
/// that the last entry in the catalog of that name has; they stand for nothing where
/// there is no such entry.
pub proof fn law_catalog_reference(
    yaml: Seq<char>,
    manifests: Seq<Seq<char>>,
    spec_text: Seq<char>,
    catalog: Seq<char>,
    name: Seq<char>,
)
    requires
        trim(spec_text) == "catalog:"@ + catalog,
    ensures
        referred(spec_text, name, workspace_of(Some(yaml), manifests)) == last_spec(
            catalog_deps(yaml),
            if catalog.len() == 0 || catalog == "default"@ {
                "catalog"@
            } else {
                "catalogs."@ + catalog
            },
            name,
        ),
{
    let prefix = "catalog:"@;
    let s = trim(spec_text);
    assert(prefix =~= s.subrange(0, prefix.len() as int));
    assert(s.skip(prefix.len() as int) =~= catalog);
    lemma_default_catalog(catalog_deps(yaml), name);
    lemma_named_catalog(catalog_deps(yaml), catalog, name);
}

/// The version in the last of the manifests that describe the package.
pub open spec fn last_version(manifests: Seq<Seq<char>>, name: Seq<char>) -> Option<Seq<char>>
    decreases manifests.len(),
{
    if manifests.len() == 0 {
        None
    } else {
        match manifest_package(manifests.last()) {
            Some((found, version)) => if found == name {
                Some(version)
            } else {
                last_version(manifests.drop_last(), name)
            },
            None => last_version(manifests.drop_last(), name),
        }
    }
}

proof fn lemma_local_versions(manifests: Seq<Seq<char>>, name: Seq<char>)
    ensures
        lookup(local_versions(manifests), name) == last_version(manifests, name),
    decreases manifests.len(),
{
    if manifests.len() > 0 {
        lemma_local_versions(manifests.drop_last(), name);
    }
}

/// A `workspace:` spec stands for the version that the manifest of the package in the
/// worktree has, whatever follows the colon.
pub proof fn law_workspace_reference(
    yaml: Option<Seq<char>>,
    manifests: Seq<Seq<char>>,
    spec_text: Seq<char>,
    name: Seq<char>,
)
    requires
        "workspace:"@.is_prefix_of(trim(spec_text)),
    ensures
        referred(spec_text, name, workspace_of(yaml, manifests)) == last_version(manifests, name),
{
    let s = trim(spec_text);
    reveal_strlit("workspace:");
    reveal_strlit("catalog:");
    assert(s[0] == "workspace:"@[0]) by {
        assert("workspace:"@ =~= s.subrange(0, 10));
    }
    if "catalog:"@.is_prefix_of(s) {
        assert("catalog:"@ =~= s.subrange(0, 8));
        assert(s[0] == 'c');
    }
    lemma_local_versions(manifests, name);
}

/// A spec that names something of the workspace is no version range, so the registry is
/// never asked for it.
pub proof fn law_workspace_not_registry(spec_text: Seq<char>)
    requires
        names_workspace(spec_text),
    ensures
        range_version(spec_text) is None,
{
    let s = trim(spec_text);
    reveal_strlit("workspace:");
    reveal_strlit("catalog:");
    if "catalog:"@.is_prefix_of(s) {
        assert("catalog:"@ =~= s.subrange(0, 8));
        assert(s[7] == "catalog:"@[7]);
        assert(s.contains(':'));
    } else {
        assert("workspace:"@ =~= s.subrange(0, 10));
        assert(s[9] == "workspace:"@[9]);
        assert(s.contains(':'));
    }
}

} // verus!
