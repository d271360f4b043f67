//! What a click on a badge writes, and where.
use crate::edit::{first_named, from_number, rewritten, starts_wild, version_edit, EditView};
use crate::manifest::DependencyView;
use crate::ranges::{
    are_parts, before_core, is_operators, law_range, lemma_before_core, lemma_pieces, range_of,
    reads_as, RangeParts,
};
use crate::rewrite_spec::{law_operator, lemma_span_append};
use crate::text::{is_space, lemma_span, lemma_span_unique, span, trim_start, CharClass};
use crate::text_laws::{is_blank, law_classes};
use crate::version::{version_text, VersionView};
use vstd::prelude::*;

verus! {

/// What stands behind the operators of a range.
proof fn lemma_behind_operators(p: RangeParts, tail: Seq<char>)
    requires
        is_blank(p.lead),
        is_operators(p.operators),
        is_blank(p.gap),
        tail.len() > 0,
        !is_space(tail[0]),
        !CharClass::RangeOperator.has(tail[0]),
    ensures
        from_number(before_core(p) + tail) == tail,
{
    let op = CharClass::RangeOperator;
    let q = before_core(p);
    lemma_before_core(p);
    let t = trim_start(q);
    lemma_span(q, CharClass::Space);
    lemma_span_append(q, tail, CharClass::Space);
    assert(trim_start(q + tail) =~= t + tail);
    lemma_span(t, op);
    lemma_span_append(t, tail, op);
    let gap = t.skip(span(t, op) as int);
    assert((t + tail).skip(span(t + tail, op) as int) =~= gap + tail);
    assert forall|i: int| 0 <= i < gap.len() implies CharClass::Space.has(#[trigger] gap[i]) by {}
    lemma_span_unique(gap, CharClass::Space, gap.len());
    lemma_span_append(gap, tail, CharClass::Space);
    assert(trim_start(gap + tail) =~= tail);
}

/// The number that a range starts from stands behind its operators.
proof fn lemma_number_place(p: RangeParts)
    requires
        are_parts(p),
        p.core.len() > 0,
        '0' <= p.core[0] <= '9' || p.core[0] == 'x' || p.core[0] == 'X' || p.core[0] == '*',
    ensures
        from_number(range_of(p)) == p.core + p.suffix + p.rest,
{
    let tail = p.core + p.suffix + p.rest;
    assert(tail[0] == p.core[0]);
    lemma_behind_operators(p, tail);
}

/// A range is rewritten by putting the version behind the operators that it has, in place of
/// the numbers, of wildcards, and of everything that follows them.
pub proof fn law_rewritten_range(p: RangeParts, a: u64, b: u64, c: u64, v: VersionView)
    requires
        are_parts(p),
        reads_as(p.core, a, b, c),
    ensures
        rewritten(range_of(p), v) == before_core(p) + version_text(v),
{
    law_range(p, a, b, c);
    lemma_pieces(p.core, a, b, c);
    lemma_number_place(p);
    let s = range_of(p);
    law_operator(s);
    assert(s.take(s.len() - from_number(s).len()) =~= before_core(p));
}

/// Whether parts are blanks, operators, blanks and a wildcard that ends there: with the text,
/// or before a dot, a hyphen, a plus sign or a blank.
pub open spec fn has_wildcard(p: RangeParts) -> bool {
    &&& is_blank(p.lead) && is_operators(p.operators) && is_blank(p.gap)
    &&& p.core == seq!['x'] || p.core == seq!['X'] || p.core == seq!['*']
    &&& p.rest.len() > 0 ==> p.rest[0] == '.' || p.rest[0] == '-' || p.rest[0] == '+' || is_space(
        p.rest[0],
    )
}

/// Whether a text begins with a wildcard, behind its operators.
pub open spec fn is_wild_text(s: Seq<char>) -> bool {
    exists|p: RangeParts| #[trigger]
        has_wildcard(p) && s == before_core(p) + (p.core + p.rest)
}

/// A text that begins with a wildcard keeps the operators before it, and nothing else.
pub proof fn law_rewritten_wildcard(p: RangeParts, v: VersionView)
    requires
        has_wildcard(p),
    ensures
        rewritten(before_core(p) + (p.core + p.rest), v) == before_core(p) + version_text(v),
{
    let tail = p.core + p.rest;
    let s = before_core(p) + tail;
    assert(tail[0] == p.core[0]);
    lemma_behind_operators(p, tail);
    if p.rest.len() > 0 {
        assert(tail[1] == p.rest[0]);
    }
    assert(starts_wild(s));
    assert(s.take(s.len() - tail.len()) =~= before_core(p));
}

proof fn lemma_wild_parts(s: Seq<char>)
    requires
        starts_wild(s),
    ensures
        is_wild_text(s),
{
    let op = CharClass::RangeOperator;
    lemma_span(s, CharClass::Space);
    let lead = s.take(span(s, CharClass::Space) as int);
    let t = trim_start(s);
    lemma_span(t, op);
    let operators = t.take(span(t, op) as int);
    let u = t.skip(span(t, op) as int);
    lemma_span(u, CharClass::Space);
    let gap = u.take(span(u, CharClass::Space) as int);
    let n = from_number(s);
    let (core, rest) = (n.take(1), n.skip(1));
    let p = RangeParts { lead, operators, gap, core, suffix: Seq::empty(), rest };
    assert forall|i: int| 0 <= i < lead.len() implies is_space(#[trigger] lead[i]) by {
        assert(CharClass::Space.has(s[i]));
    }
    assert forall|i: int| 0 <= i < gap.len() implies is_space(#[trigger] gap[i]) by {
        assert(CharClass::Space.has(u[i]));
    }
    assert forall|i: int| 0 <= i < operators.len() implies "^~><=v "@.contains(
        #[trigger] operators[i],
    ) by {
        assert(op.has(t[i]));
        law_classes(t[i]);
    }
    assert(core =~= seq![n[0]]);
    assert(u =~= gap + n);
    assert(t =~= operators + u);
    assert(s =~= lead + t);
    assert(s =~= before_core(p) + (core + rest));
    assert(has_wildcard(p));
}

/// Any other text keeps all that stands before its first digit, and the whole of itself
/// where it has none.
pub proof fn law_rewritten_other(p: Seq<char>, rest: Seq<char>, v: VersionView)
    requires
        !is_wild_text(p + rest),
        forall|i: int| 0 <= i < p.len() ==> !('0' <= #[trigger] p[i] <= '9'),
        rest.len() > 0 ==> '0' <= rest[0] <= '9',
    ensures
        rewritten(p + rest, v) == p + version_text(v),
{
    let s = p + rest;
    if starts_wild(s) {
        lemma_wild_parts(s);
    }
    assert forall|i: int| 0 <= i < p.len() implies CharClass::NotDigit.has(#[trigger] s[i]) by {
        assert(s[i] == p[i]);
    }
    if rest.len() > 0 {
        assert(s[p.len() as int] == rest[0]);
    }
    lemma_span_unique(s, CharClass::NotDigit, p.len());
    assert(s.take(p.len() as int) =~= p);
}

/// Whether an entry is the first with a context and a name.
pub open spec fn is_first_named(
    deps: Seq<DependencyView>,
    i: int,
    context: Seq<char>,
    name: Seq<char>,
) -> bool {
    &&& 0 <= i < deps.len()
    &&& deps[i].context == context && deps[i].name == name
    &&& forall|j: int|
        0 <= j < i ==> (#[trigger] deps[j]).context != context || deps[j].name != name
}

proof fn lemma_first_named_at(deps: Seq<DependencyView>, context: Seq<char>, name: Seq<char>)
    ensures
        match first_named(deps, context, name) {
            Some(i) => is_first_named(deps, i as int, context, name),
            None => forall|j: int|
                0 <= j < deps.len() ==> (#[trigger] deps[j]).context != context || deps[j].name
                    != name,
        },
    decreases deps.len(),
{
    if deps.len() > 0 && !(deps[0].context == context && deps[0].name == name) {
        let rest = deps.drop_first();
        lemma_first_named_at(rest, context, name);
        match first_named(rest, context, name) {
            Some(i) => {
                assert(deps[i as int + 1] == rest[i as int]);
                assert forall|j: int| 0 <= j < i + 1 implies (#[trigger] deps[j]).context
                    != context || deps[j].name != name by {
                    if j > 0 {
                        assert(rest[j - 1] == deps[j]);
                    }
                }
            },
            None => {
                assert forall|j: int| 0 <= j < deps.len() implies (#[trigger] deps[j]).context
                    != context || deps[j].name != name by {
                    if j > 0 {
                        assert(rest[j - 1] == deps[j]);
                    }
                }
            },
        }
    }
}

/// A click writes the rewritten text over the version text of the first entry with the
/// context and the name, in its row, unless it stands there already.
pub proof fn law_edit_at(
    deps: Seq<DependencyView>,
    i: int,
    context: Seq<char>,
    name: Seq<char>,
    v: VersionView,
)
    requires
        is_first_named(deps, i, context, name),
    ensures
        version_edit(deps, context, name, v) == if rewritten(deps[i].spec, v) == deps[i].spec {
            None
        } else {
            Some(
                (EditView {
                    row: deps[i].row,
                    cols: deps[i].value_cols,
                    text: rewritten(deps[i].spec, v),
                }),
            )
        },
{
    lemma_first_named_at(deps, context, name);
    match first_named(deps, context, name) {
        Some(k) => {
            if i < k {
                assert(deps[i].context != context || deps[i].name != name);
            }
            if k < i {
                assert(deps[k as int].context != context || deps[k as int].name != name);
            }
        },
        None => {
            assert(deps[i].context != context || deps[i].name != name);
        },
    }
}

/// Without such an entry nothing is written.
pub proof fn law_edit_nowhere(
    deps: Seq<DependencyView>,
    context: Seq<char>,
    name: Seq<char>,
    v: VersionView,
)
    requires
        forall|j: int|
            0 <= j < deps.len() ==> (#[trigger] deps[j]).context != context || deps[j].name != name,
    ensures
        version_edit(deps, context, name, v) is None,
{
    lemma_first_named_at(deps, context, name);
}

} // verus!
