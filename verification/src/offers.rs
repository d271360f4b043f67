//! What the badges of a lens offer.
use crate::lens::update_badges;
use crate::registry::ascending;
use crate::tiers::{
    badge, badge_for, is_update, last_update, law_newest, tier_badges, tier_of, BadgeView, Color,
    Tier,
};
use crate::text::decimal;
use crate::version::{release_text, version_le, version_text, VersionView};
use vstd::prelude::*;

verus! {

/// Whether a release is newer than `current` and differs from it first in the number
/// that the kind of update is named after.
pub open spec fn is_newer(v: VersionView, current: VersionView, tier: Tier) -> bool {
    &&& !version_le(v, current)
    &&& match tier {
        Tier::Patch => v.major == current.major && v.minor == current.minor,
        Tier::Minor => v.major == current.major && v.minor > current.minor,
        Tier::Major => v.major > current.major,
    }
}

/// The badge that offers a version as an update of a kind: `↑ patch` in green,
/// `↑ minor` in yellow, `↑ major` in red, each with the version behind it.
pub open spec fn offer(tier: Tier, v: VersionView) -> BadgeView {
    match tier {
        Tier::Patch => BadgeView {
            label: "↑ "@ + "patch"@ + " "@ + version_text(v),
            version: v,
            color: Color::Success,
        },
        Tier::Minor => BadgeView {
            label: "↑ "@ + "minor"@ + " "@ + version_text(v),
            version: v,
            color: Color::Warning,
        },
        Tier::Major => BadgeView {
            label: "↑ "@ + "major"@ + " "@ + version_text(v),
            version: v,
            color: Color::Error,
        },
    }
}

/// How many badges an update makes.
pub open spec fn how_many(update: Option<VersionView>) -> nat {
    if update is Some {
        1
    } else {
        0
    }
}

/// Each kind of update has its badge on its own account: a version is offered as an
/// update of a kind exactly where it is the update of that kind, whatever the other two
/// are. There are as many badges as kinds with an update, and they stand from the
/// smallest kind to the largest.
pub proof fn law_badge_of_each_kind(
    patch: Option<VersionView>,
    minor: Option<VersionView>,
    major: Option<VersionView>,
    v: VersionView,
)
    ensures
        tier_badges(patch, minor, major).contains(offer(Tier::Patch, v)) <==> patch == Some(v),
        tier_badges(patch, minor, major).contains(offer(Tier::Minor, v)) <==> minor == Some(v),
        tier_badges(patch, minor, major).contains(offer(Tier::Major, v)) <==> major == Some(v),
        tier_badges(patch, minor, major).len() == how_many(patch) + how_many(minor) + how_many(
            major,
        ),
        patch is Some ==> tier_badges(patch, minor, major)[0] == offer(Tier::Patch, patch->0),
        minor is Some ==> tier_badges(patch, minor, major)[how_many(patch) as int] == offer(
            Tier::Minor,
            minor->0,
        ),
        major is Some ==> tier_badges(patch, minor, major).last() == offer(Tier::Major, major->0),
{
    let all = tier_badges(patch, minor, major);
    let p = badge_for("patch"@, patch, Color::Success);
    let m = badge_for("minor"@, minor, Color::Warning);
    let j = badge_for("major"@, major, Color::Error);
    assert(p.len() == how_many(patch) && m.len() == how_many(minor) && j.len() == how_many(major));
    assert(patch is Some ==> all[0] == p[0]);
    assert(minor is Some ==> all[p.len() as int] == m[0]);
    assert(major is Some ==> all[(p.len() + m.len()) as int] == j[0]);
    assert forall|b: BadgeView| #[trigger] all.contains(b) implies {
        ||| patch is Some && b == offer(Tier::Patch, patch->0)
        ||| minor is Some && b == offer(Tier::Minor, minor->0)
        ||| major is Some && b == offer(Tier::Major, major->0)
    } by {
        let k = choose|k: int| 0 <= k < all.len() && all[k] == b;
        if k < p.len() {
            assert(b == p[0]);
        } else if k < p.len() + m.len() {
            assert(b == m[0]);
        } else {
            assert(b == j[0]);
        }
    }
}

/// Every newer release is offered for: there is a badge of its own kind, and the
/// version on it is no earlier.
pub proof fn law_newer_offered(versions: Seq<VersionView>, current: VersionView, i: int)
    requires
        ascending(versions),
        0 <= i < versions.len(),
        !version_le(versions[i], current),
    ensures
        exists|tier: Tier, v: VersionView|
            {
                &&& #[trigger] update_badges(current, versions).contains(offer(tier, v))
                &&& is_newer(versions[i], current, tier)
                &&& versions[i] == v || version_le(versions[i], v)
            },
{
    let tier = tier_of(versions[i], current);
    assert(is_update(versions[i], current, tier));
    law_newest(versions, current, tier);
    let v = last_update(versions, current, tier)->0;
    law_badge_of_each_kind(
        last_update(versions, current, Tier::Patch),
        last_update(versions, current, Tier::Minor),
        last_update(versions, current, Tier::Major),
        v,
    );
    assert(update_badges(current, versions).contains(offer(tier, v)));
    assert(is_newer(versions[i], current, tier));
}

/// What is offered is one of the releases, newer than the current version and of the
/// kind that the badge names, and no release of that kind is later.
pub proof fn law_offers_newest(versions: Seq<VersionView>, current: VersionView, j: int)
    requires
        ascending(versions),
        0 <= j < update_badges(current, versions).len(),
    ensures
        exists|tier: Tier, v: VersionView|
            {
                &&& update_badges(current, versions)[j] == #[trigger] offer(tier, v)
                &&& versions.contains(v)
                &&& is_newer(v, current, tier)
                &&& forall|i: int|
                    0 <= i < versions.len() && is_newer(#[trigger] versions[i], current, tier)
                        ==> versions[i] == v || version_le(versions[i], v)
            },
{
    let patch = last_update(versions, current, Tier::Patch);
    let minor = last_update(versions, current, Tier::Minor);
    let major = last_update(versions, current, Tier::Major);
    let b = update_badges(current, versions)[j];
    law_newest(versions, current, Tier::Patch);
    law_newest(versions, current, Tier::Minor);
    law_newest(versions, current, Tier::Major);
    law_badge_of_each_kind(patch, minor, major, b.version);
    let tier = if patch is Some && j == 0 {
        Tier::Patch
    } else if minor is Some && j == how_many(patch) {
        Tier::Minor
    } else {
        Tier::Major
    };
    assert(b == offer(tier, b.version));
    assert forall|i: int|
        0 <= i < versions.len() && is_newer(#[trigger] versions[i], current, tier) implies versions[i]
        == b.version || version_le(versions[i], b.version) by {
        assert(is_update(versions[i], current, tier));
    }
}

/// No two badges are of one kind: they have different colours.
pub proof fn law_kinds_differ(versions: Seq<VersionView>, current: VersionView, i: int, j: int)
    requires
        0 <= i < j < update_badges(current, versions).len(),
    ensures
        update_badges(current, versions)[i].color != update_badges(current, versions)[j].color,
{
    law_badge_of_each_kind(
        last_update(versions, current, Tier::Patch),
        last_update(versions, current, Tier::Minor),
        last_update(versions, current, Tier::Major),
        current,
    );
}

/// The update of a kind is the last of the versions that is newer and of that kind, in
/// whatever order they stand; there is none exactly where no version is.
pub proof fn law_last_update(versions: Seq<VersionView>, current: VersionView, tier: Tier)
    ensures
        match last_update(versions, current, tier) {
            Some(v) => exists|i: int|
                {
                    &&& 0 <= i < versions.len()
                    &&& #[trigger] versions[i] == v
                    &&& is_newer(v, current, tier)
                    &&& forall|j: int|
                        i < j < versions.len() ==> !is_newer(#[trigger] versions[j], current, tier)
                },
            None => forall|j: int|
                0 <= j < versions.len() ==> !is_newer(#[trigger] versions[j], current, tier),
        },
    decreases versions.len(),
{
    if versions.len() > 0 {
        let rest = versions.drop_last();
        let n = versions.len() - 1;
        let last = versions.last();
        assert(versions[n] == last);
        lemma_is_newer(last, current, tier);
        law_last_update(rest, current, tier);
        if is_update(last, current, tier) {
            assert(versions[n] == last_update(versions, current, tier)->0);
        } else {
            match last_update(rest, current, tier) {
                Some(v) => {
                    let i = choose|i: int|
                        {
                            &&& 0 <= i < rest.len()
                            &&& #[trigger] rest[i] == v
                            &&& is_newer(v, current, tier)
                            &&& forall|j: int|
                                i < j < rest.len() ==> !is_newer(#[trigger] rest[j], current, tier)
                        };
                    assert(versions[i] == v);
                    assert forall|j: int| i < j < versions.len() implies !is_newer(
                        #[trigger] versions[j],
                        current,
                        tier,
                    ) by {
                        if j < n {
                            assert(rest[j] == versions[j]);
                        }
                    }
                },
                None => {
                    assert forall|j: int| 0 <= j < versions.len() implies !is_newer(
                        #[trigger] versions[j],
                        current,
                        tier,
                    ) by {
                        if j < n {
                            assert(rest[j] == versions[j]);
                        }
                    }
                },
            }
        }
    }
}

proof fn lemma_is_newer(v: VersionView, current: VersionView, tier: Tier)
    ensures
        is_newer(v, current, tier) == is_update(v, current, tier),
{
}

/// The numbers of a version decide from left to right which of two comes later.
pub proof fn law_version_order(a: VersionView, b: VersionView)
    ensures
        a.major < b.major ==> version_le(a, b) && !version_le(b, a),
        a.major == b.major && a.minor < b.minor ==> version_le(a, b) && !version_le(b, a),
        a.major == b.major && a.minor == b.minor && a.patch < b.patch ==> version_le(a, b)
            && !version_le(b, a),
{
}

/// A badge shows an arrow, the name of its kind and its version.
pub proof fn law_badge(tier: Seq<char>, v: VersionView, color: Color)
    ensures
        badge(tier, v, color).label == "↑ "@ + tier + " "@ + version_text(v),
        badge(tier, v, color).version == v,
        badge(tier, v, color).color == color,
{
}

/// A version is written as its three numbers with dots between them, a hyphen and the
/// pre-release where there is one, and a plus sign and the build metadata where there is any.
pub proof fn law_version_form(v: VersionView)
    ensures
        ({
            let numbers = decimal(v.major as nat) + seq!['.'] + decimal(v.minor as nat) + seq!['.']
                + decimal(v.patch as nat);
            &&& v.pre.len() == 0 && v.build.len() == 0 ==> version_text(v) == numbers
            &&& v.pre.len() > 0 && v.build.len() == 0 ==> version_text(v) == numbers + seq!['-']
                + v.pre
            &&& v.pre.len() == 0 && v.build.len() > 0 ==> version_text(v) == numbers + seq!['+']
                + v.build
            &&& v.pre.len() > 0 && v.build.len() > 0 ==> version_text(v) == numbers + seq!['-']
                + v.pre + seq!['+'] + v.build
        }),
{
    let numbers = decimal(v.major as nat) + seq!['.'] + decimal(v.minor as nat) + seq!['.']
        + decimal(v.patch as nat);
    assert(release_text(v.major as nat, v.minor as nat, v.patch as nat) =~= numbers);
    let text = version_text(v);
    if v.pre.len() == 0 && v.build.len() == 0 {
        assert(text =~= numbers);
    } else if v.build.len() == 0 {
        assert(text =~= numbers + seq!['-'] + v.pre);
    } else if v.pre.len() == 0 {
        assert(text =~= numbers + seq!['+'] + v.build);
    } else {
        assert(text =~= numbers + seq!['-'] + v.pre + seq!['+'] + v.build);
    }
}

} // verus!
