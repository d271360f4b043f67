//! What the npm registry answers about a package: its released versions and its
//! description.
use crate::json::{
    field, holds, json_document, law_field, opt_view, parse_json, unique_fields, unique_keys,
    Json, JsonView,
};
use crate::links::{clickable, clickable_url, law_clickable};
use crate::text::{
    byte_len, bytes_in, chars_of, fit, fitting, lemma_fitting, same_text, text_of, trim,
    trimmed,
};
use crate::version::{
    opt_version, parse_version, semver_version, version_le, version_text, version_views,
    well_formed, Version, VersionView,
};
use vstd::prelude::*;
use vstd::seq_lib::to_multiset_remove;
use vstd::string::*;

verus! {

pub const REGISTRY: &'static str = "https://registry.npmjs.org";

/// The number of bytes of a README that are kept for the hover popover.
pub const README_CAP: usize = 24_000;

/// What the registry puts where a package has no README.
pub const NO_README: &'static str = "ERROR: No README data found!";

/// The answer to a request: whether its status tells success, and its body where
/// that could be read.
#[derive(Debug)]
pub struct Response {
    pub success: bool,
    pub body: Option<String>,
}

/// The address of a package's document.
pub fn package_url(package: &str) -> (r: String)
    ensures
        r@ == REGISTRY@ + "/"@ + package@,
        r@ == "https://registry.npmjs.org"@ + "/"@ + package@,
{
    let mut url = REGISTRY.to_string();
    url.append("/");
    url.append(package);
    url
}

/// The document in an answer: the body of a successful one, where it is JSON.
pub open spec fn answered(response: Option<Response>) -> Option<JsonView> {
    match response {
        Some(response) => match response.body {
            Some(body) => if response.success {
                json_document(body@)
            } else {
                None
            },
            None => None,
        },
        None => None,
    }
}

/// The document in an answer, in which no object has a key twice; `None` stands for a
/// request that was not answered.
pub fn read_response(response: &Option<Response>) -> (r: Option<Json>)
    ensures
        match r {
            Some(json) => answered(*response) == Some(json@) && unique_keys(json@),
            None => answered(*response) is None,
        },
{
    match response {
        Some(response) => match &response.body {
            Some(body) => if response.success {
                parse_json(body.as_str())
            } else {
                None
            },
            None => None,
        },
        None => None,
    }
}

/// The versions that the fields are named after, in the order of the fields. What is
/// no version is left out.
pub open spec fn named_versions(fields: Seq<(Seq<char>, JsonView)>) -> Seq<VersionView>
    decreases fields.len(),
{
    if fields.len() == 0 {
        seq![]
    } else {
        let before = named_versions(fields.drop_last());
        match semver_version(fields.last().0) {
            Some(v) => before.push(v),
            None => before,
        }
    }
}

/// The full releases among the versions: those that are no pre-release.
pub open spec fn releases(versions: Seq<VersionView>) -> Seq<VersionView>
    decreases versions.len(),
{
    if versions.len() == 0 {
        seq![]
    } else {
        let before = releases(versions.drop_last());
        if versions.last().pre.len() == 0 {
            before.push(versions.last())
        } else {
            before
        }
    }
}

/// The releases that a package document lists under `versions`.
pub open spec fn listed_releases(document: JsonView) -> Seq<VersionView> {
    match document.get("versions"@) {
        Some(JsonView::Object(fields)) => releases(named_versions(fields)),
        _ => seq![],
    }
}

/// Whether an answer tells success and has a body that is the given document.
pub open spec fn says(response: Option<Response>, document: JsonView) -> bool {
    &&& response is Some
    &&& response->0.success
    &&& response->0.body is Some
    &&& json_document((response->0.body->0)@) == Some(document)
}

/// Whether one of the fields is named after the version.
pub open spec fn is_named(fields: Seq<(Seq<char>, JsonView)>, v: VersionView) -> bool {
    exists|i: int| 0 <= i < fields.len() && semver_version((#[trigger] fields[i]).0) == Some(v)
}

/// Whether the version is no pre-release and a key of the `versions` object of the
/// document reads as it.
pub open spec fn names_release(document: JsonView, v: VersionView) -> bool {
    v.pre.len() == 0 && exists|fields: Seq<(Seq<char>, JsonView)>|
        #[trigger] holds(document, "versions"@, JsonView::Object(fields)) && is_named(fields, v)
}

proof fn lemma_is_named(fields: Seq<(Seq<char>, JsonView)>, v: VersionView)
    ensures
        named_versions(fields).contains(v) <==> is_named(fields, v),
    decreases fields.len(),
{
    if fields.len() > 0 {
        let rest = fields.drop_last();
        lemma_is_named(rest, v);
        let (before, all) = (named_versions(rest), named_versions(fields));
        let last = fields.last();
        assert(fields[fields.len() - 1] == last);
        if is_named(rest, v) {
            let i = choose|i: int|
                0 <= i < rest.len() && semver_version((#[trigger] rest[i]).0) == Some(v);
            assert(fields[i] == rest[i]);
            let k = choose|k: int| 0 <= k < before.len() && before[k] == v;
            assert(all[k] == v);
        }
        if semver_version(last.0) == Some(v) {
            assert(all.last() == v);
        }
        if is_named(fields, v) && semver_version(last.0) != Some(v) {
            let i = choose|i: int|
                0 <= i < fields.len() && semver_version((#[trigger] fields[i]).0) == Some(v);
            assert(rest[i] == fields[i]);
        }
        if all.contains(v) && !before.contains(v) {
            let k = choose|k: int| 0 <= k < all.len() && all[k] == v;
            if k < before.len() {
                assert(before[k] == v);
            }
        }
    }
}

/// A version is among the releases exactly where it is among the versions and is no
/// pre-release.
pub proof fn law_releases(versions: Seq<VersionView>, v: VersionView)
    ensures
        releases(versions).contains(v) <==> versions.contains(v) && v.pre.len() == 0,
    decreases versions.len(),
{
    if versions.len() > 0 {
        let rest = versions.drop_last();
        law_releases(rest, v);
        let (before, all) = (releases(rest), releases(versions));
        let last = versions.last();
        assert(versions[versions.len() - 1] == last);
        if before.contains(v) {
            let k = choose|k: int| 0 <= k < before.len() && before[k] == v;
            assert(all[k] == v);
            let i = choose|i: int| 0 <= i < rest.len() && rest[i] == v;
            assert(versions[i] == v);
        }
        if last == v && v.pre.len() == 0 {
            assert(all.last() == v);
        }
        if versions.contains(v) && last != v {
            let i = choose|i: int| 0 <= i < versions.len() && versions[i] == v;
            assert(rest[i] == v);
        }
        if all.contains(v) && !before.contains(v) {
            let k = choose|k: int| 0 <= k < all.len() && all[k] == v;
            if k < before.len() {
                assert(before[k] == v);
            }
        }
    }
}

/// A release stands among the releases as often as among the versions.
pub proof fn law_release_count(versions: Seq<VersionView>, v: VersionView)
    ensures
        releases(versions).to_multiset().count(v) == if v.pre.len() == 0 {
            versions.to_multiset().count(v)
        } else {
            0
        },
    decreases versions.len(),
{
    if versions.len() == 0 {
        versions.to_multiset_ensures();
        releases(versions).to_multiset_ensures();
        assert(versions =~= Seq::<VersionView>::empty());
        assert(!versions.contains(v));
        assert(!releases(versions).contains(v));
    } else {
        let rest = versions.drop_last();
        law_release_count(rest, v);
        assert(versions =~= rest.push(versions.last()));
        rest.to_multiset_ensures();
        releases(rest).to_multiset_ensures();
    }
}

/// A version is among the releases that a document lists exactly where it is no
/// pre-release and a key of the `versions` object reads as it.
pub proof fn law_listed_releases(document: JsonView, v: VersionView)
    ensures
        listed_releases(document).contains(v) <==> names_release(document, v),
{
    match document.get("versions"@) {
        Some(value) => {
            law_field(document, "versions"@, value);
            if value is Object {
                let fields = value->Object_0;
                law_releases(named_versions(fields), v);
                lemma_is_named(fields, v);
            }
        },
        None => {},
    }
    if names_release(document, v) {
        let fields = choose|fields: Seq<(Seq<char>, JsonView)>|
            #[trigger] holds(document, "versions"@, JsonView::Object(fields)) && is_named(fields, v);
        law_field(document, "versions"@, JsonView::Object(fields));
    }
}

/// Two lists of the same versions in different orders hold the same versions.
proof fn lemma_same_versions(a: Seq<VersionView>, b: Seq<VersionView>, v: VersionView)
    requires
        a.to_multiset() == b.to_multiset(),
    ensures
        a.contains(v) <==> b.contains(v),
{
    a.to_multiset_ensures();
    b.to_multiset_ensures();
    assert(a.contains(v) <==> a.to_multiset().count(v) > 0);
    assert(b.contains(v) <==> b.to_multiset().count(v) > 0);
}

/// Whether the versions stand from the oldest to the newest.
pub open spec fn ascending(versions: Seq<VersionView>) -> bool {
    forall|i: int, j: int|
        0 <= i < j < versions.len() ==> version_le(#[trigger] versions[i], #[trigger] versions[j])
}

/// Whether all of the versions are well-formed.
pub open spec fn all_well_formed(versions: Seq<VersionView>) -> bool {
    forall|i: int| 0 <= i < versions.len() ==> well_formed(#[trigger] versions[i])
}

/// Puts a version behind all those that come no later.
fn insert_ascending(versions: &mut Vec<Version>, version: Version)
    requires
        ascending(version_views(old(versions)@)),
    ensures
        ascending(version_views(final(versions)@)),
        all_well_formed(version_views(old(versions)@)) && well_formed(version@)
            ==> all_well_formed(version_views(final(versions)@)),
        version_views(final(versions)@).to_multiset() == version_views(
            old(versions)@,
        ).to_multiset().insert(version@),
{
    let ghost before = version_views(versions@);
    let ghost new = version@;
    let mut at: usize = versions.len();
    loop
        invariant
            at <= versions@.len(),
            before == version_views(versions@),
            new == version@,
            ascending(before),
            forall|k: int| at <= k < before.len() ==> version_le(new, #[trigger] before[k]),
        ensures
            at <= versions@.len(),
            forall|k: int| at <= k < before.len() ==> version_le(new, #[trigger] before[k]),
            forall|k: int| 0 <= k < at ==> version_le(#[trigger] before[k], new),
        decreases at,
    {
        if at == 0 {
            break;
        }
        let earlier = versions[at - 1].no_later_than(&version);
        proof {
            assert(before[at - 1] == versions@[at - 1]@);
        }
        if earlier {
            assert forall|k: int| 0 <= k < at implies version_le(#[trigger] before[k], new) by {
                if k < at - 1 {
                    assert(version_le(before[k], before[at - 1]));
                }
            }
            break;
        }
        at -= 1;
    }
    versions.insert(at, version);
    proof {
        let after = version_views(versions@);
        assert(after =~= before.insert(at as int, new));
        assert forall|i: int, j: int| 0 <= i < j < after.len() implies version_le(
            #[trigger] after[i],
            #[trigger] after[j],
        ) by {
            let a = if i < at {
                i
            } else {
                i - 1
            };
            let b = if j < at {
                j
            } else {
                j - 1
            };
            if i == at {
                assert(after[j] == before[b]);
            } else if j == at {
                assert(after[i] == before[a]);
            } else {
                assert(after[i] == before[a] && after[j] == before[b]);
            }
        }
        assert forall|i: int|
            all_well_formed(before) && well_formed(new) && 0 <= i < after.len() implies well_formed(
            #[trigger] after[i],
        ) by {
            if i != at {
                let a = if i < at {
                    i
                } else {
                    i - 1
                };
                assert(after[i] == before[a]);
            }
        }
        to_multiset_remove(after, at as int);
        assert(after.remove(at as int) =~= before);
        after.to_multiset_ensures();
        assert(after.contains(new)) by {
            assert(after[at as int] == new);
        }
        assert(after.to_multiset() =~= before.to_multiset().insert(new));
    }
}

/// The releases are among the versions, and none stands twice where no version does.
proof fn lemma_releases(versions: Seq<VersionView>)
    ensures
        forall|v: VersionView| #[trigger] releases(versions).contains(v) ==> versions.contains(v),
        versions.no_duplicates() ==> releases(versions).no_duplicates(),
    decreases versions.len(),
{
    if versions.len() > 0 {
        let rest = versions.drop_last();
        lemma_releases(rest);
        let (before, all) = (releases(rest), releases(versions));
        let last = versions.last();
        assert(versions[versions.len() - 1] == last);
        assert forall|v: VersionView| #[trigger] all.contains(v) implies versions.contains(v) by {
            let k = choose|k: int| 0 <= k < all.len() && all[k] == v;
            if k < before.len() {
                assert(before[k] == v);
                assert(before.contains(v));
                let m = choose|m: int| 0 <= m < rest.len() && rest[m] == v;
                assert(versions[m] == v);
            }
        }
        if versions.no_duplicates() {
            if before.contains(last) {
                let m = choose|m: int| 0 <= m < rest.len() && rest[m] == last;
                assert(versions[m] == last);
            }
        }
    }
}

/// The full releases among the versions, from the oldest to the newest.
pub fn sorted_releases(versions: &Vec<Version>) -> (r: Vec<Version>)
    ensures
        ascending(version_views(r@)),
        version_views(r@).to_multiset() == releases(version_views(versions@)).to_multiset(),
        all_well_formed(version_views(versions@)) ==> all_well_formed(version_views(r@)),
        version_views(versions@).no_duplicates() ==> version_views(r@).no_duplicates(),
        forall|v: VersionView| #[trigger]
            version_views(r@).contains(v) <==> version_views(versions@).contains(v) && v.pre.len()
                == 0,
{
    let ghost all = version_views(versions@);
    let mut sorted: Vec<Version> = Vec::new();
    let mut i: usize = 0;
    proof {
        assert(version_views(sorted@) =~= seq![]);
        assert(all.take(0) =~= seq![]);
    }
    while i < versions.len()
        invariant
            i <= versions@.len(),
            all == version_views(versions@),
            ascending(version_views(sorted@)),
            all_well_formed(all) ==> all_well_formed(version_views(sorted@)),
            version_views(sorted@).to_multiset() == releases(all.take(i as int)).to_multiset(),
        decreases versions@.len() - i,
    {
        proof {
            assert(all.take(i + 1).drop_last() =~= all.take(i as int));
            assert(all.take(i + 1).last() == versions@[i as int]@);
            assert(all[i as int] == versions@[i as int]@);
            releases(all.take(i as int)).to_multiset_ensures();
        }
        if versions[i].pre.as_str().is_empty() {
            insert_ascending(&mut sorted, versions[i].clone());
        }
        i += 1;
    }
    proof {
        assert(all.take(i as int) =~= all);
        if all.no_duplicates() {
            lemma_releases(all);
            releases(all).lemma_multiset_has_no_duplicates();
            version_views(sorted@).lemma_multiset_has_no_duplicates_conv();
        }
        assert forall|v: VersionView| #[trigger]
            version_views(sorted@).contains(v) <==> all.contains(v) && v.pre.len() == 0 by {
            lemma_same_versions(version_views(sorted@), releases(all), v);
            law_releases(all, v);
        }
    }
    sorted
}

/// The versions that the fields are named after.
fn read_versions(fields: &Vec<(String, Json)>) -> (r: Vec<Version>)
    ensures
        version_views(r@) == named_versions(Json::Object(*fields)@->Object_0),
        all_well_formed(version_views(r@)),
        unique_fields(Json::Object(*fields)@->Object_0) ==> version_views(r@).no_duplicates(),
{
    let ghost all = Json::Object(*fields)@->Object_0;
    let ghost mut from: Seq<int> = seq![];
    let mut versions: Vec<Version> = Vec::new();
    let mut i: usize = 0;
    proof {
        assert(version_views(versions@) =~= seq![]);
        assert(all.take(0) =~= seq![]);
    }
    while i < fields.len()
        invariant
            i <= fields@.len(),
            all == Json::Object(*fields)@->Object_0,
            all_well_formed(version_views(versions@)),
            version_views(versions@) == named_versions(all.take(i as int)),
            all.len() == fields@.len(),
            from.len() == versions@.len(),
            forall|k: int|
                0 <= k < from.len() ==> 0 <= #[trigger] from[k] < i && all[from[k]].0
                    == version_text(versions@[k]@),
            forall|k: int, m: int| 0 <= k < m < from.len() ==> from[k] < from[m],
        decreases fields@.len() - i,
    {
        let ghost before = version_views(versions@);
        proof {
            assert(all.take(i + 1).drop_last() =~= all.take(i as int));
            assert(all.take(i + 1).last().0 == fields@[i as int].0@);
        }
        if let Some(version) = parse_version(fields[i].0.as_str()) {
            let ghost new = version@;
            versions.push(version);
            proof {
                assert(version_views(versions@) =~= before.push(new));
                from = from.push(i as int);
            }
        }
        i += 1;
    }
    proof {
        assert(all.take(i as int) =~= all);
        let found = version_views(versions@);
        if unique_fields(all) {
            assert forall|k: int, m: int|
                0 <= k < found.len() && 0 <= m < found.len() && k != m implies found[k]
                != found[m] by {
                if k < m {
                    assert(from[k] < from[m]);
                } else {
                    assert(from[m] < from[k]);
                }
                assert(all[from[k]].0 != all[from[m]].0);
            }
        }
    }
    versions
}

/// A field of a document has no key twice where the document has none.
proof fn lemma_field_keys(fields: Seq<(Seq<char>, JsonView)>, key: Seq<char>)
    requires
        forall|i: int| 0 <= i < fields.len() ==> unique_keys((#[trigger] fields[i]).1),
    ensures
        field(fields, key) matches Some(value) ==> unique_keys(value),
    decreases fields.len(),
{
    if fields.len() > 0 {
        let rest = fields.drop_first();
        assert forall|i: int| 0 <= i < rest.len() implies unique_keys((#[trigger] rest[i]).1) by {
            assert(rest[i] == fields[i + 1]);
        }
        lemma_field_keys(rest, key);
    }
}

/// All full releases that a package document lists, from the oldest to the newest, each
/// once where no object in the document has a key twice.
pub fn registry_versions(document: &Json) -> (r: Vec<Version>)
    ensures
        ascending(version_views(r@)),
        all_well_formed(version_views(r@)),
        unique_keys(document@) ==> version_views(r@).no_duplicates(),
        version_views(r@).to_multiset() == listed_releases(document@).to_multiset(),
        forall|v: VersionView| #[trigger]
            version_views(r@).contains(v) <==> names_release(document@, v),
{
    proof {
        if document@ is Object {
            if unique_keys(document@) {
                lemma_field_keys(document@->Object_0, "versions"@);
            }
        }
    }
    let found = match document.get("versions") {
        Some(Json::Object(fields)) => {
            let versions = read_versions(fields);
            sorted_releases(&versions)
        },
        _ => {
            let none: Vec<Version> = Vec::new();
            proof {
                assert(version_views(none@) =~= seq![]);
            }
            none
        },
    };
    proof {
        assert forall|v: VersionView| #[trigger]
            version_views(found@).contains(v) <==> names_release(document@, v) by {
            lemma_same_versions(version_views(found@), listed_releases(document@), v);
            law_listed_releases(document@, v);
        }
    }
    found
}

/// The releases of a package from the answer to a request for its document. There
/// are none where the request failed or the answer is no such document. They go from the
/// oldest to the newest, and none stands twice.
pub fn fetch_versions(response: &Option<Response>) -> (r: Vec<Version>)
    ensures
        ascending(version_views(r@)),
        version_views(r@).no_duplicates(),
        all_well_formed(version_views(r@)),
        match answered(*response) {
            Some(document) => version_views(r@).to_multiset() == listed_releases(
                document,
            ).to_multiset(),
            None => r@.len() == 0,
        },
        forall|v: VersionView| #[trigger]
            version_views(r@).contains(v) <==> exists|document: JsonView| #[trigger]
                says(*response, document) && names_release(document, v),
{
    match read_response(response) {
        Some(document) => {
            assert(says(*response, document@));
            registry_versions(&document)
        },
        None => Vec::new(),
    }
}

/// What the hover popover tells of a package.
#[derive(Debug)]
pub struct PackageDoc {
    pub latest: Option<Version>,
    pub description: Option<String>,
    pub homepage: Option<String>,
    pub repository: Option<String>,
    pub license: Option<String>,
    pub readme: Option<String>,
}

/// What a [`PackageDoc`] says.
#[verifier::ext_equal]
pub struct DocView {
    pub latest: Option<VersionView>,
    pub description: Option<Seq<char>>,
    pub homepage: Option<Seq<char>>,
    pub repository: Option<Seq<char>>,
    pub license: Option<Seq<char>>,
    pub readme: Option<Seq<char>>,
}

impl View for PackageDoc {
    type V = DocView;

    open spec fn view(&self) -> DocView {
        DocView {
            latest: opt_version(self.latest),
            description: opt_view(self.description),
            homepage: opt_view(self.homepage),
            repository: opt_view(self.repository),
            license: opt_view(self.license),
            readme: opt_view(self.readme),
        }
    }
}

/// The link that a `repository` field gives: a text, or an object with a `url`.
pub open spec fn repository_link(value: JsonView) -> Option<Seq<char>> {
    let raw = match value {
        JsonView::Text(url) => Some(url),
        _ => value.get_text("url"@),
    };
    match raw {
        Some(raw) => clickable(raw),
        None => None,
    }
}

/// The license that a `license` field gives: a text, or an object with a `type`.
pub open spec fn license_id(value: JsonView) -> Option<Seq<char>> {
    match value {
        JsonView::Text(license) => Some(license),
        _ => value.get_text("type"@),
    }
}

/// A README cut down to what the popover shows.
pub open spec fn capped(readme: Seq<char>) -> Seq<char> {
    if byte_len(readme) > README_CAP {
        readme.take(fitting(readme, README_CAP as nat) as int) + "\n\n…"@
    } else {
        readme
    }
}

/// The README that a package document holds, if it is more than a blank.
pub open spec fn shown_readme(document: JsonView) -> Option<Seq<char>> {
    match document.get_text("readme"@) {
        Some(readme) => if trim(readme).len() == 0 || readme == NO_README@ {
            None
        } else {
            Some(capped(readme))
        },
        None => None,
    }
}

/// The version that a package document names as the latest one.
pub open spec fn latest_version(document: JsonView) -> Option<VersionView> {
    match document.get("dist-tags"@) {
        Some(tags) => match tags.get_text("latest"@) {
            Some(text) => semver_version(text),
            None => None,
        },
        None => None,
    }
}

/// What a package document says of the package.
pub open spec fn described(document: JsonView) -> DocView {
    DocView {
        latest: latest_version(document),
        description: document.get_text("description"@),
        homepage: document.get_text("homepage"@),
        repository: match document.get("repository"@) {
            Some(value) => repository_link(value),
            None => None,
        },
        license: match document.get("license"@) {
            Some(value) => license_id(value),
            None => None,
        },
        readme: shown_readme(document),
    }
}

/// Normalizes an npm `repository` field (a text, or an object with a `url`) into
/// a clickable `https` address.
pub fn parse_repository_url(value: &Json) -> (r: Option<String>)
    ensures
        opt_view(r) == repository_link(value@),
        r matches Some(link) ==> "https://"@.is_prefix_of(link@),
{
    let raw = match value.as_text() {
        Some(url) => Some(url.clone()),
        None => value.get_text("url"),
    };
    match raw {
        Some(raw) => clickable_url(raw.as_str()),
        None => None,
    }
}

/// Extracts the license id from an npm `license` field: a text, or the older
/// form of an object with a `type`.
pub fn parse_license(value: &Json) -> (r: Option<String>)
    ensures
        opt_view(r) == license_id(value@),
{
    match value.as_text() {
        Some(license) => Some(license.clone()),
        None => value.get_text("type"),
    }
}

/// A README cut down to what the popover shows.
pub fn cap_readme(readme: &str) -> (r: String)
    ensures
        r@ == capped(readme@),
{
    let chars = chars_of(readme);
    if bytes_in(chars.as_slice()) > README_CAP {
        let mut kept = text_of(fit(chars.as_slice(), README_CAP));
        kept.append("\n\n…");
        kept
    } else {
        text_of(chars.as_slice())
    }
}

fn read_readme(document: &Json) -> (r: Option<String>)
    ensures
        opt_view(r) == shown_readme(document@),
{
    match document.get_text("readme") {
        Some(readme) => {
            let chars = chars_of(readme.as_str());
            if trimmed(chars.as_slice()).len() == 0 || same_text(readme.as_str(), NO_README) {
                None
            } else {
                Some(cap_readme(readme.as_str()))
            }
        },
        None => None,
    }
}

fn read_latest(document: &Json) -> (r: Option<Version>)
    ensures
        opt_version(r) == latest_version(document@),
{
    match document.get("dist-tags") {
        Some(tags) => match tags.get_text("latest") {
            Some(text) => parse_version(text.as_str()),
            None => None,
        },
        None => None,
    }
}

/// What a package document says of the package.
pub fn package_doc(document: &Json) -> (r: PackageDoc)
    ensures
        r@ == described(document@),
{
    let latest = read_latest(document);
    let description = document.get_text("description");
    let homepage = document.get_text("homepage");
    let repository = match document.get("repository") {
        Some(value) => parse_repository_url(value),
        None => None,
    };
    let license = match document.get("license") {
        Some(value) => parse_license(value),
        None => None,
    };
    let readme = read_readme(document);
    PackageDoc { latest, description, homepage, repository, license, readme }
}

/// What a package is, from the answer to a request for its document.
pub fn fetch_package_doc(response: &Option<Response>) -> (r: Option<PackageDoc>)
    ensures
        match answered(*response) {
            Some(document) => r matches Some(doc) && doc@ == described(document),
            None => r is None,
        },
        r is Some <==> exists|document: JsonView| says(*response, document),
        forall|document: JsonView| #[trigger]
            says(*response, document) ==> r is Some && (r->0)@ == described(document),
{
    match read_response(response) {
        Some(document) => {
            assert(says(*response, document@));
            Some(package_doc(&document))
        },
        None => None,
    }
}

/// A README is shown whole if it fits, and otherwise as much of its beginning as
/// fits: what is kept has no more bytes than the cap, and one character more would
/// have more.
pub proof fn law_readme_cap(readme: Seq<char>)
    ensures
        byte_len(readme) <= README_CAP ==> capped(readme) == readme,
        byte_len(readme) > README_CAP ==> {
            let kept = capped(readme).take(capped(readme).len() - "\n\n…"@.len());
            &&& kept.len() < readme.len()
            &&& kept == readme.take(kept.len() as int)
            &&& byte_len(kept) <= README_CAP
            &&& byte_len(readme.take(kept.len() as int + 1)) > README_CAP
            &&& capped(readme) == kept + "\n\n…"@
        },
{
    if byte_len(readme) > README_CAP {
        lemma_fitting(readme, README_CAP as nat);
        let k = fitting(readme, README_CAP as nat) as int;
        let kept = capped(readme).take(capped(readme).len() - "\n\n…"@.len());
        assert(kept =~= readme.take(k));
        if k == readme.len() {
            assert(readme.take(k) =~= readme);
        }
    }
}

/// A repository field gives an `https` address or nothing.
pub proof fn law_repository_link(value: JsonView)
    ensures
        repository_link(value) matches Some(link) ==> "https://"@.is_prefix_of(link),
{
    let raw = match value {
        JsonView::Text(url) => Some(url),
        _ => value.get_text("url"@),
    };
    if raw is Some {
        law_clickable(raw->0);
    }
}

} // verus!
