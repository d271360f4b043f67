//! What the signature of a lens tells of the lens.
use crate::lens::{badge_mark, badges_mark, lens_of, signature, update_badges, LensView, StateView};
use crate::manifest::DependencyView;
use crate::registry::all_well_formed;
use crate::rewrite_spec::{lemma_release_chars, lemma_version_chars};
use crate::text::{cut, join, lacks, lemma_cut_made, lemma_span, span, CharClass};
use crate::tiers::{badge, badge_for, last_update, BadgeView, Color, Tier};
use crate::version::{
    is_identifier_char, lemma_release_injective, range_version, release_text, version_text,
    well_formed, VersionView,
};
use crate::workspace::ContextView;
use vstd::prelude::*;

verus! {

/// Whether none of the texts holds the character.
spec fn parts_lack(parts: Seq<Seq<char>>, c: char) -> bool {
    forall|i: int| 0 <= i < parts.len() ==> lacks(#[trigger] parts[i], c)
}

proof fn lemma_join_first(parts: Seq<Seq<char>>, sep: Seq<char>)
    requires
        parts.len() >= 2,
    ensures
        join(parts, sep) == parts[0] + sep + join(parts.drop_first(), sep),
    decreases parts.len(),
{
    let rest = parts.drop_first();
    if parts.len() == 2 {
        assert(parts.drop_last().len() == 1);
        assert(parts.drop_last()[0] == parts[0]);
        assert(join(parts.drop_last(), sep) == parts[0]);
        assert(join(rest, sep) == parts[1]);
    } else {
        lemma_join_first(parts.drop_last(), sep);
        assert(parts.drop_last().drop_first() =~= rest.drop_last());
        assert(rest.last() == parts.last());
        assert(parts[0] + sep + join(rest.drop_last(), sep) + sep + parts.last() =~= parts[0] + sep
            + (join(rest.drop_last(), sep) + sep + parts.last()));
    }
}

/// A text without a character cannot be cut at it.
proof fn lemma_cut_none(s: Seq<char>, c: char)
    requires
        lacks(s, c),
    ensures
        cut(s, c) is None,
{
    lemma_span(s, CharClass::Except(c));
    if span(s, CharClass::Except(c)) < s.len() {
        assert(s[span(s, CharClass::Except(c)) as int] == c);
    }
}

/// What is joined can be taken apart again.
proof fn lemma_join_injective(a: Seq<Seq<char>>, b: Seq<Seq<char>>, c: char)
    requires
        a.len() > 0,
        b.len() > 0,
        parts_lack(a, c),
        parts_lack(b, c),
        join(a, seq![c]) == join(b, seq![c]),
    ensures
        a == b,
    decreases a.len(),
{
    let sep = seq![c];
    if a.len() >= 2 {
        lemma_join_first(a, sep);
        lemma_cut_made(a[0], c, join(a.drop_first(), sep));
    } else {
        lemma_cut_none(a[0], c);
    }
    if b.len() >= 2 {
        lemma_join_first(b, sep);
        lemma_cut_made(b[0], c, join(b.drop_first(), sep));
    } else {
        lemma_cut_none(b[0], c);
    }
    if a.len() >= 2 {
        assert(b.len() >= 2);
        let (x, y) = (a.drop_first(), b.drop_first());
        assert forall|i: int| 0 <= i < x.len() implies lacks(#[trigger] x[i], c) by {
            assert(x[i] == a[i + 1]);
        }
        assert forall|i: int| 0 <= i < y.len() implies lacks(#[trigger] y[i], c) by {
            assert(y[i] == b[i + 1]);
        }
        lemma_join_injective(x, y, c);
        assert(a =~= seq![a[0]] + x);
        assert(b =~= seq![b[0]] + y);
    } else {
        assert(a =~= seq![a[0]]);
        assert(b =~= seq![b[0]]);
    }
}

/// What stands before the build metadata of a version.
spec fn before_build(v: VersionView) -> Seq<char> {
    release_text(v.major as nat, v.minor as nat, v.patch as nat) + (if v.pre.len() > 0 {
        seq!['-'] + v.pre
    } else {
        seq![]
    })
}

proof fn lemma_before_build(v: VersionView)
    requires
        well_formed(v),
    ensures
        lacks(before_build(v), '+'),
        v.build.len() == 0 ==> version_text(v) == before_build(v),
        v.build.len() > 0 ==> version_text(v) == before_build(v) + seq!['+'] + v.build,
        cut(version_text(v), '+') == (if v.build.len() > 0 {
            Some((before_build(v), v.build))
        } else {
            None
        }),
{
    let plain = VersionView { build: seq![], ..v };
    let front = before_build(v);
    assert(version_text(plain) =~= front);
    lemma_version_chars(plain);
    let numbers = release_text(v.major as nat, v.minor as nat, v.patch as nat);
    lemma_numbers_lack(v);
    assert forall|i: int| 0 <= i < front.len() implies #[trigger] front[i] != '+' by {
        if i < numbers.len() {
            assert(front[i] == numbers[i]);
        } else if i > numbers.len() {
            assert(front[i] == v.pre[i - numbers.len() - 1]);
        }
    }
    if v.build.len() > 0 {
        assert(version_text(v) =~= front + seq!['+'] + v.build);
        lemma_cut_made(front, '+', v.build);
    } else {
        assert(version_text(v) =~= front);
        lemma_cut_none(front, '+');
    }
}

proof fn lemma_numbers_lack(v: VersionView)
    ensures
        lacks(release_text(v.major as nat, v.minor as nat, v.patch as nat), '-'),
        lacks(release_text(v.major as nat, v.minor as nat, v.patch as nat), '+'),
{
    lemma_release_chars(v.major as nat, v.minor as nat, v.patch as nat);
    let numbers = release_text(v.major as nat, v.minor as nat, v.patch as nat);
    assert forall|i: int| 0 <= i < numbers.len() implies #[trigger] numbers[i] != '-' && numbers[i]
        != '+' by {}
}

/// Versions that are written alike are the same.
pub proof fn law_version_text(a: VersionView, b: VersionView)
    requires
        well_formed(a),
        well_formed(b),
        version_text(a) == version_text(b),
    ensures
        a == b,
{
    lemma_before_build(a);
    lemma_before_build(b);
    assert(a.build =~= b.build);
    let (x, y) = (
        release_text(a.major as nat, a.minor as nat, a.patch as nat),
        release_text(b.major as nat, b.minor as nat, b.patch as nat),
    );
    lemma_numbers_lack(a);
    lemma_numbers_lack(b);
    if a.pre.len() > 0 {
        assert(before_build(a) =~= x + seq!['-'] + a.pre);
        lemma_cut_made(x, '-', a.pre);
    } else {
        assert(before_build(a) =~= x);
        lemma_cut_none(x, '-');
    }
    if b.pre.len() > 0 {
        assert(before_build(b) =~= y + seq!['-'] + b.pre);
        lemma_cut_made(y, '-', b.pre);
    } else {
        assert(before_build(b) =~= y);
        lemma_cut_none(y, '-');
    }
    assert(a.pre =~= b.pre);
    lemma_release_injective(a.major, a.minor, a.patch, b.major, b.minor, b.patch);
}

/// The colour of the badges for the given kind of update.
pub open spec fn tier_color(tier: Tier) -> Color {
    match tier {
        Tier::Patch => Color::Success,
        Tier::Minor => Color::Warning,
        Tier::Major => Color::Error,
    }
}

/// The name of a kind of update.
pub open spec fn tier_name(tier: Tier) -> Seq<char> {
    match tier {
        Tier::Patch => "patch"@,
        Tier::Minor => "minor"@,
        Tier::Major => "major"@,
    }
}

/// Whether a badge is one that offers an update of the given kind.
pub open spec fn offers(b: BadgeView, tier: Tier) -> bool {
    b == badge(tier_name(tier), b.version, tier_color(tier)) && well_formed(b.version)
}

/// Whether a badge is one that offers an update.
pub open spec fn is_offer(b: BadgeView) -> bool {
    exists|tier: Tier| offers(b, tier)
}

/// Whether a lens is one that a dependency can have: its chips, if it has any, offer
/// updates.
pub open spec fn is_sound(lens: LensView) -> bool {
    match lens {
        LensView::Tiers(badges) => badges.len() > 0 && forall|i: int|
            0 <= i < badges.len() ==> is_offer(#[trigger] badges[i]),
        _ => true,
    }
}

proof fn lemma_names()
    ensures
        "patch"@ == seq!['p', 'a', 't', 'c', 'h'],
        "minor"@ == seq!['m', 'i', 'n', 'o', 'r'],
        "major"@ == seq!['m', 'a', 'j', 'o', 'r'],
        "↑ "@ == seq!['↑', ' '],
        " "@ == seq![' '],
        ":"@ == seq![':'],
        "|"@ == seq!['|'],
{
    reveal_strlit("patch");
    reveal_strlit("minor");
    reveal_strlit("major");
    reveal_strlit("↑ ");
    reveal_strlit(" ");
    reveal_strlit(":");
    reveal_strlit("|");
    assert("patch"@ =~= seq!['p', 'a', 't', 'c', 'h']);
    assert("minor"@ =~= seq!['m', 'i', 'n', 'o', 'r']);
    assert("major"@ =~= seq!['m', 'a', 'j', 'o', 'r']);
    assert("↑ "@ =~= seq!['↑', ' ']);
    assert(" "@ =~= seq![' ']);
    assert(":"@ =~= seq![':']);
    assert("|"@ =~= seq!['|']);
}

/// How a badge for an update counts in a signature.
proof fn lemma_mark(b: BadgeView, tier: Tier)
    requires
        offers(b, tier),
    ensures
        badge_mark(b) == seq!['↑', ' '] + tier_name(tier) + seq![' '] + (version_text(b.version)
            + seq![':'] + version_text(b.version)),
        tier_name(tier).len() == 5,
        lacks(badge_mark(b), '|'),
        lacks(version_text(b.version), ':'),
        badge_mark(b)[0] == '↑',
{
    lemma_names();
    let text = version_text(b.version);
    lemma_version_chars(b.version);
    let mark = badge_mark(b);
    let name = tier_name(tier);
    assert(mark =~= seq!['↑', ' '] + name + seq![' '] + (text + seq![':'] + text));
    assert forall|i: int| 0 <= i < text.len() implies #[trigger] text[i] != ':' && text[i] != '|' by {
        assert(is_identifier_char(text[i]) || text[i] == '+');
    }
    assert forall|i: int| 0 <= i < mark.len() implies #[trigger] mark[i] != '|' by {
        if 2 <= i < 7 {
            assert(mark[i] == name[i - 2]);
        } else if 8 <= i < 8 + text.len() {
            assert(mark[i] == text[i - 8]);
        } else if i > 8 + text.len() {
            assert(mark[i] == text[i - 9 - text.len()]);
        }
    }
}

/// Badges for updates that count alike in a signature are the same.
proof fn lemma_mark_injective(a: BadgeView, s: Tier, b: BadgeView, t: Tier)
    requires
        offers(a, s),
        offers(b, t),
        badge_mark(a) == badge_mark(b),
    ensures
        a == b,
{
    lemma_mark(a, s);
    lemma_mark(b, t);
    lemma_names();
    let (m, n) = (badge_mark(a), badge_mark(b));
    assert(m.subrange(2, 7) =~= tier_name(s));
    assert(n.subrange(2, 7) =~= tier_name(t));
    assert(tier_name(s)[0] == tier_name(t)[0] && tier_name(s)[1] == tier_name(t)[1]);
    assert(s == t);
    let (x, y) = (version_text(a.version), version_text(b.version));
    assert(m.skip(8) =~= x + seq![':'] + x);
    assert(n.skip(8) =~= y + seq![':'] + y);
    lemma_cut_made(x, ':', x);
    lemma_cut_made(y, ':', y);
    law_version_text(a.version, b.version);
}

/// The marks of badges.
spec fn marks(badges: Seq<BadgeView>) -> Seq<Seq<char>> {
    Seq::new(badges.len(), |i: int| badge_mark(badges[i]))
}

/// A signature of chips begins with the arrow of the first one.
proof fn lemma_badges_mark(badges: Seq<BadgeView>)
    requires
        is_sound(LensView::Tiers(badges)),
    ensures
        parts_lack(marks(badges), '|'),
        badges_mark(badges).len() > 0,
        badges_mark(badges)[0] == '↑',
        badges_mark(badges) == join(marks(badges), seq!['|']),
{
    lemma_names();
    let all = marks(badges);
    assert forall|i: int| 0 <= i < all.len() implies lacks(#[trigger] all[i], '|') && all[i].len()
        > 0 && all[i][0] == '↑' by {
        assert(is_offer(badges[i]));
        let tier = choose|tier: Tier| offers(badges[i], tier);
        lemma_mark(badges[i], tier);
    }
    assert(badges_mark(badges) == join(all, seq!['|']));
    if all.len() >= 2 {
        lemma_join_first(all, seq!['|']);
    }
}

/// A signature tells lenses apart: lenses with the same signature show the same.
pub proof fn law_signature(a: LensView, b: LensView)
    requires
        is_sound(a),
        is_sound(b),
        signature(a) == signature(b),
    ensures
        a == b,
{
    reveal_strlit("loading");
    reveal_strlit("note:");
    assert("loading"@[0] == 'l' && "note:"@[0] == 'n');
    if a is Tiers {
        lemma_badges_mark(a->Tiers_0);
    }
    if b is Tiers {
        lemma_badges_mark(b->Tiers_0);
    }
    if a is Note {
        assert(signature(a)[0] == 'n');
        assert(signature(a).skip(5) =~= a->Note_0);
    }
    if b is Note {
        assert(signature(b)[0] == 'n');
        assert(signature(b).skip(5) =~= b->Note_0);
    }
    if a is Tiers && b is Tiers {
        let (x, y) = (a->Tiers_0, b->Tiers_0);
        lemma_join_injective(marks(x), marks(y), '|');
        assert(x.len() == marks(x).len() && y.len() == marks(y).len());
        assert forall|i: int| 0 <= i < x.len() implies x[i] == y[i] by {
            assert(marks(x)[i] == marks(y)[i]);
            assert(is_offer(x[i]) && is_offer(y[i]));
            let s = choose|tier: Tier| offers(x[i], tier);
            let t = choose|tier: Tier| offers(y[i], tier);
            lemma_mark_injective(x[i], s, y[i], t);
        }
        assert(x =~= y);
    }
}

proof fn lemma_last_well_formed(versions: Seq<VersionView>, current: VersionView, tier: Tier)
    requires
        all_well_formed(versions),
    ensures
        last_update(versions, current, tier) matches Some(v) ==> well_formed(v),
    decreases versions.len(),
{
    if versions.len() > 0 {
        let rest = versions.drop_last();
        assert(well_formed(versions[versions.len() - 1]));
        assert forall|i: int| 0 <= i < rest.len() implies well_formed(#[trigger] rest[i]) by {
            assert(well_formed(versions[i]));
        }
        lemma_last_well_formed(rest, current, tier);
    }
}

/// The lenses of dependencies are such that their signatures tell them apart, if the
/// versions that are known are well-formed.
pub proof fn law_lenses_sound(
    dep: DependencyView,
    state: Option<StateView>,
    workspace: Option<ContextView>,
)
    requires
        state matches Some(StateView::Resolved(versions)) ==> all_well_formed(versions),
    ensures
        is_sound(lens_of(dep, state, workspace)),
{
    let lens = lens_of(dep, state, workspace);
    if lens is Tiers {
        let versions = (state->0)->Resolved_0;
        let current = range_version(dep.spec)->0;
        let badges = update_badges(current, versions);
        assert(lens == LensView::Tiers(badges));
        let patch = last_update(versions, current, Tier::Patch);
        let minor = last_update(versions, current, Tier::Minor);
        let major = last_update(versions, current, Tier::Major);
        lemma_last_well_formed(versions, current, Tier::Patch);
        lemma_last_well_formed(versions, current, Tier::Minor);
        lemma_last_well_formed(versions, current, Tier::Major);
        let (p, m, j) = (
            badge_for("patch"@, patch, Color::Success),
            badge_for("minor"@, minor, Color::Warning),
            badge_for("major"@, major, Color::Error),
        );
        assert forall|i: int| 0 <= i < badges.len() implies is_offer(#[trigger] badges[i]) by {
            if i < p.len() {
                assert(badges[i] == p[i]);
                assert(offers(badges[i], Tier::Patch));
            } else if i < p.len() + m.len() {
                assert(badges[i] == m[i - p.len()]);
                assert(offers(badges[i], Tier::Minor));
            } else {
                assert(badges[i] == j[i - p.len() - m.len()]);
                assert(offers(badges[i], Tier::Major));
            }
        }
    }
}

} // verus!
