//! The newest releases above a version, one for each kind of update, and the
//! badges that offer them.
use crate::registry::ascending;
use crate::version::{opt_version, version_le, version_text, version_views, Version, VersionView};
use vstd::prelude::*;
use vstd::string::*;

verus! {

/// The kinds of update that a release can be.
#[derive(Clone, Copy, Debug, PartialEq, Eq, Structural)]
pub enum Tier {
    /// The same major and minor number.
    Patch,
    /// The same major number, another minor number.
    Minor,
    /// Another major number.
    Major,
}

/// What kind of update `version` is for someone at `current`.
pub open spec fn tier_of(version: VersionView, current: VersionView) -> Tier {
    if version.major == current.major && version.minor == current.minor {
        Tier::Patch
    } else if version.major == current.major {
        Tier::Minor
    } else {
        Tier::Major
    }
}

/// Whether `version` is an update of the given kind for someone at `current`.
pub open spec fn is_update(version: VersionView, current: VersionView, tier: Tier) -> bool {
    !version_le(version, current) && tier_of(version, current) == tier
}

/// The last of the versions that is an update of the given kind.
pub open spec fn last_update(
    versions: Seq<VersionView>,
    current: VersionView,
    tier: Tier,
) -> Option<VersionView>
    decreases versions.len(),
{
    if versions.len() == 0 {
        None
    } else if is_update(versions.last(), current, tier) {
        Some(versions.last())
    } else {
        last_update(versions.drop_last(), current, tier)
    }
}

/// The newest update of each kind, where there is one.
#[derive(Debug)]
pub struct Tiers {
    pub patch: Option<Version>,
    pub minor: Option<Version>,
    pub major: Option<Version>,
}

/// The last update of each kind.
pub fn compute_tiers(current: &Version, versions: &[Version]) -> (r: Tiers)
    ensures
        opt_version(r.patch) == last_update(version_views(versions@), current@, Tier::Patch),
        opt_version(r.minor) == last_update(version_views(versions@), current@, Tier::Minor),
        opt_version(r.major) == last_update(version_views(versions@), current@, Tier::Major),
{
    let mut tiers = Tiers { patch: None, minor: None, major: None };
    let ghost all = version_views(versions@);
    let mut i: usize = 0;
    while i < versions.len()
        invariant
            i <= versions@.len(),
            all == version_views(versions@),
            opt_version(tiers.patch) == last_update(all.take(i as int), current@, Tier::Patch),
            opt_version(tiers.minor) == last_update(all.take(i as int), current@, Tier::Minor),
            opt_version(tiers.major) == last_update(all.take(i as int), current@, Tier::Major),
        decreases versions@.len() - i,
    {
        let version = &versions[i];
        proof {
            assert(all.take(i + 1).drop_last() =~= all.take(i as int));
            assert(all.take(i + 1).last() == version@);
        }
        if !version.no_later_than(current) {
            if version.major == current.major && version.minor == current.minor {
                tiers.patch = Some(version.clone());
            } else if version.major == current.major {
                tiers.minor = Some(version.clone());
            } else {
                tiers.major = Some(version.clone());
            }
        }
        i += 1;
    }
    proof {
        assert(all.take(i as int) =~= all);
    }
    tiers
}

/// The colours of lens labels.
#[derive(Clone, Copy, Debug, PartialEq, Eq, Structural)]
pub enum Color {
    Success,
    Warning,
    Error,
    Muted,
}

/// A chip that offers one version.
#[derive(Debug)]
pub struct Badge {
    pub label: String,
    pub version: Version,
    pub color: Color,
}

/// What a [`Badge`] says.
#[verifier::ext_equal]
pub struct BadgeView {
    pub label: Seq<char>,
    pub version: VersionView,
    pub color: Color,
}

impl View for Badge {
    type V = BadgeView;

    open spec fn view(&self) -> BadgeView {
        BadgeView { label: self.label@, version: self.version@, color: self.color }
    }
}

/// What each of the badges says.
pub open spec fn badge_views(badges: Seq<Badge>) -> Seq<BadgeView> {
    Seq::new(badges.len(), |i: int| badges[i]@)
}

/// The badge for an update: an arrow, the kind of update and the version.
pub open spec fn badge(tier: Seq<char>, version: VersionView, color: Color) -> BadgeView {
    BadgeView { label: "↑ "@ + tier + " "@ + version_text(version), version, color }
}

/// One badge where there is an update, none where there is not.
pub open spec fn badge_for(
    tier: Seq<char>,
    version: Option<VersionView>,
    color: Color,
) -> Seq<BadgeView> {
    match version {
        Some(version) => seq![badge(tier, version, color)],
        None => seq![],
    }
}

/// The badges for the newest updates, from the smallest kind to the largest.
pub open spec fn tier_badges(
    patch: Option<VersionView>,
    minor: Option<VersionView>,
    major: Option<VersionView>,
) -> Seq<BadgeView> {
    badge_for("patch"@, patch, Color::Success) + badge_for("minor"@, minor, Color::Warning)
        + badge_for("major"@, major, Color::Error)
}

impl Badge {
    pub fn new(tier: &str, version: Version, color: Color) -> (r: Badge)
        ensures
            r@ == badge(tier@, version@, color),
    {
        let mut label = "↑ ".to_string();
        label.append(tier);
        label.append(" ");
        label.append(version.to_text().as_str());
        Badge { label, version, color }
    }
}

impl Clone for Badge {
    fn clone(&self) -> (r: Badge)
        ensures
            r@ == self@,
    {
        Badge { label: self.label.clone(), version: self.version.clone(), color: self.color }
    }
}

/// Adds the badge for an update, where there is one.
fn push_badge(badges: &mut Vec<Badge>, tier: &str, version: &Option<Version>, color: Color)
    ensures
        badge_views(final(badges)@) == badge_views(old(badges)@) + badge_for(
            tier@,
            opt_version(*version),
            color,
        ),
{
    if let Some(version) = version {
        badges.push(Badge::new(tier, version.clone(), color));
    }
    proof {
        assert(badge_views(badges@) =~= badge_views(old(badges)@) + badge_for(
            tier@,
            opt_version(*version),
            color,
        ));
    }
}

impl Tiers {
    /// Whether there is no update at all.
    pub fn is_empty(&self) -> (r: bool)
        ensures
            r == (self.patch is None && self.minor is None && self.major is None),
    {
        self.patch.is_none() && self.minor.is_none() && self.major.is_none()
    }

    /// The badges for the updates, from the smallest kind to the largest.
    pub fn badges(&self) -> (r: Vec<Badge>)
        ensures
            badge_views(r@) == tier_badges(
                opt_version(self.patch),
                opt_version(self.minor),
                opt_version(self.major),
            ),
    {
        let mut badges: Vec<Badge> = Vec::new();
        push_badge(&mut badges, "patch", &self.patch, Color::Success);
        push_badge(&mut badges, "minor", &self.minor, Color::Warning);
        push_badge(&mut badges, "major", &self.major, Color::Error);
        proof {
            let none: Seq<BadgeView> = seq![];
            let p = badge_for("patch"@, opt_version(self.patch), Color::Success);
            assert(none + p =~= p);
        }
        badges
    }
}

/// Among versions from the oldest to the newest, the update that is found is one of
/// them, is an update of the kind, and none of that kind is newer; none is found only
/// where there is none.
pub proof fn law_newest(versions: Seq<VersionView>, current: VersionView, tier: Tier)
    requires
        ascending(versions),
    ensures
        match last_update(versions, current, tier) {
            Some(v) => {
                &&& versions.contains(v)
                &&& is_update(v, current, tier)
                &&& forall|i: int|
                    0 <= i < versions.len() && is_update(#[trigger] versions[i], current, tier)
                        ==> versions[i] == v || version_le(versions[i], v)
            },
            None => forall|i: int|
                0 <= i < versions.len() ==> !is_update(#[trigger] versions[i], current, tier),
        },
    decreases versions.len(),
{
    if versions.len() > 0 {
        let rest = versions.drop_last();
        assert(versions[versions.len() - 1] == versions.last());
        assert forall|i: int, j: int| 0 <= i < j < rest.len() implies version_le(
            #[trigger] rest[i],
            #[trigger] rest[j],
        ) by {
            assert(version_le(versions[i], versions[j]));
        }
        law_newest(rest, current, tier);
        if is_update(versions.last(), current, tier) {
            assert forall|i: int|
                0 <= i < versions.len() && is_update(#[trigger] versions[i], current, tier) implies
                versions[i] == versions.last() || version_le(versions[i], versions.last()) by {
                if i < versions.len() - 1 {
                    assert(version_le(versions[i], versions[versions.len() - 1]));
                }
            }
        } else {
            assert forall|i: int| 0 <= i < rest.len() implies #[trigger] versions[i] == rest[i] by {}
            if last_update(rest, current, tier) is Some {
                let v = last_update(rest, current, tier)->0;
                let k = choose|k: int| 0 <= k < rest.len() && rest[k] == v;
                assert(versions[k] == v);
            }
        }
    }
}

/// An update that is found is newer than the current version, in the numbers of its
/// kind: a major update in the major number, a minor one in the minor number alone,
/// a patch in neither of the two.
pub proof fn law_newer(versions: Seq<VersionView>, current: VersionView, tier: Tier)
    ensures
        last_update(versions, current, tier) matches Some(v) ==> {
            &&& !version_le(v, current)
            &&& match tier {
                Tier::Major => v.major > current.major,
                Tier::Minor => v.major == current.major && v.minor > current.minor,
                Tier::Patch => v.major == current.major && v.minor == current.minor && v.patch
                    >= current.patch,
            }
        },
    decreases versions.len(),
{
    if versions.len() > 0 && !is_update(versions.last(), current, tier) {
        law_newer(versions.drop_last(), current, tier);
    }
}

/// The updates climb: a minor update is newer than a patch, and a major update is
/// newer than both.
pub proof fn law_climbing(versions: Seq<VersionView>, current: VersionView)
    ensures
        ({
            let patch = last_update(versions, current, Tier::Patch);
            let minor = last_update(versions, current, Tier::Minor);
            let major = last_update(versions, current, Tier::Major);
            &&& patch is Some && minor is Some ==> !version_le(minor->0, patch->0)
            &&& minor is Some && major is Some ==> !version_le(major->0, minor->0)
            &&& patch is Some && major is Some ==> !version_le(major->0, patch->0)
        }),
{
    law_newer(versions, current, Tier::Patch);
    law_newer(versions, current, Tier::Minor);
    law_newer(versions, current, Tier::Major);
}

/// Every newer version is an update of some kind, so no update is found exactly where
/// no version is newer.
pub proof fn law_up_to_date(versions: Seq<VersionView>, current: VersionView)
    ensures
        (last_update(versions, current, Tier::Patch) is None && last_update(
            versions,
            current,
            Tier::Minor,
        ) is None && last_update(versions, current, Tier::Major) is None) == (forall|i: int|
            0 <= i < versions.len() ==> version_le(#[trigger] versions[i], current)),
    decreases versions.len(),
{
    if versions.len() > 0 {
        let rest = versions.drop_last();
        law_up_to_date(rest, current);
        let newest = versions.last();
        assert(versions[versions.len() - 1] == newest);
        if version_le(newest, current) {
            if forall|i: int| 0 <= i < rest.len() ==> version_le(#[trigger] rest[i], current) {
                assert forall|i: int| 0 <= i < versions.len() implies version_le(
                    #[trigger] versions[i],
                    current,
                ) by {
                    if i < rest.len() {
                        assert(version_le(rest[i], current));
                    }
                }
            }
            if forall|i: int| 0 <= i < versions.len() ==> version_le(#[trigger] versions[i], current) {
                assert forall|i: int| 0 <= i < rest.len() implies version_le(
                    #[trigger] rest[i],
                    current,
                ) by {
                    assert(version_le(versions[i], current));
                }
            }
        } else {
            assert(is_update(newest, current, tier_of(newest, current)));
        }
    }
}

} // verus!
