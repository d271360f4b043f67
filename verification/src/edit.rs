//! Rewriting a dependency to another version.
use crate::manifest::{dep_views, listed, parse_deps, Dependency, DependencyView, LensFile};
use crate::text::{
    chars_of, is_space, is_white_space, lemma_span, same_text, skip, span, span_len, take, text_of,
    trim_start, trimmed_start, CharClass,
};
use crate::version::{version_text, Version, VersionView};
use std::ops::Range;
use vstd::prelude::*;
use vstd::string::*;

verus! {

/// A spec from its first number on: without the blanks and range operators before it.
pub open spec fn from_number(spec_text: Seq<char>) -> Seq<char> {
    let t = trim_start(spec_text);
    trim_start(t.skip(span(t, CharClass::RangeOperator) as int))
}

/// What can follow a number in a range.
pub open spec fn ends_number(c: char) -> bool {
    c == '.' || c == '-' || c == '+' || is_space(c)
}

/// Whether a wildcard stands where the first number of a range would.
pub open spec fn starts_wild(spec_text: Seq<char>) -> bool {
    let n = from_number(spec_text);
    &&& n.len() > 0
    &&& n[0] == 'x' || n[0] == 'X' || n[0] == '*'
    &&& n.len() > 1 ==> ends_number(n[1])
}

/// What stands before the first number of a spec, be it a wildcard: its range operator.
pub open spec fn range_prefix(spec_text: Seq<char>) -> Seq<char> {
    if starts_wild(spec_text) {
        spec_text.take(spec_text.len() - from_number(spec_text).len())
    } else {
        spec_text.take(span(spec_text, CharClass::NotDigit) as int)
    }
}

/// A range operator is the beginning of its spec and holds no digit.
pub proof fn lemma_range_prefix(spec_text: Seq<char>)
    ensures
        range_prefix(spec_text).len() <= spec_text.len(),
        range_prefix(spec_text) == spec_text.take(range_prefix(spec_text).len() as int),
        forall|i: int|
            0 <= i < range_prefix(spec_text).len() ==> CharClass::NotDigit.has(
                #[trigger] range_prefix(spec_text)[i],
            ),
{
    lemma_span(spec_text, CharClass::NotDigit);
    let prefix = range_prefix(spec_text);
    if starts_wild(spec_text) {
        lemma_from_number(spec_text);
    } else {
        assert forall|i: int| 0 <= i < prefix.len() implies CharClass::NotDigit.has(
            #[trigger] prefix[i],
        ) by {
            assert(prefix[i] == spec_text[i]);
        }
    }
}

/// Before the first number stand blanks and range operators alone.
pub proof fn lemma_from_number(spec_text: Seq<char>)
    ensures
        ({
            let n = from_number(spec_text);
            let at = spec_text.len() - n.len();
            &&& 0 <= at
            &&& n == spec_text.skip(at)
            &&& forall|i: int|
                0 <= i < at ==> is_space(#[trigger] spec_text[i]) || CharClass::RangeOperator.has(
                    spec_text[i],
                )
            &&& n.len() > 0 ==> !is_space(n[0])
        }),
{
    let t = trim_start(spec_text);
    let u = t.skip(span(t, CharClass::RangeOperator) as int);
    let n = from_number(spec_text);
    let at = spec_text.len() - n.len();
    lemma_span(spec_text, CharClass::Space);
    lemma_span(t, CharClass::RangeOperator);
    lemma_span(u, CharClass::Space);
    let (a, b) = (span(spec_text, CharClass::Space) as int, span(t, CharClass::RangeOperator) as int);
    assert(n =~= spec_text.skip(at));
    assert forall|i: int| 0 <= i < at implies is_space(#[trigger] spec_text[i])
        || CharClass::RangeOperator.has(spec_text[i]) by {
        if i < a {
            assert(CharClass::Space.has(spec_text[i]));
        } else if i < a + b {
            assert(CharClass::RangeOperator.has(t[i - a]));
            assert(t[i - a] == spec_text[i]);
        } else {
            assert(CharClass::Space.has(u[i - a - b]));
            assert(u[i - a - b] == spec_text[i]);
        }
    }
}

/// The length of the range operator of a spec.
fn operator_len(spec_text: &[char]) -> (r: usize)
    ensures
        r <= spec_text@.len(),
        spec_text@.take(r as int) == range_prefix(spec_text@),
{
    let t = trimmed_start(spec_text);
    let n = trimmed_start(skip(t, span_len(t, CharClass::RangeOperator)));
    if n.len() > 0 && (n[0] == 'x' || n[0] == 'X' || n[0] == '*') && (n.len() == 1 || n[1] == '.'
        || n[1] == '-' || n[1] == '+' || is_white_space(n[1])) {
        spec_text.len() - n.len()
    } else {
        span_len(spec_text, CharClass::NotDigit)
    }
}

/// A spec rewritten to a version, with the operator it had.
pub open spec fn rewritten(spec_text: Seq<char>, version: VersionView) -> Seq<char> {
    range_prefix(spec_text) + version_text(version)
}

/// The place of the first entry with the given context and name.
pub open spec fn first_named(
    deps: Seq<DependencyView>,
    context: Seq<char>,
    name: Seq<char>,
) -> Option<nat>
    decreases deps.len(),
{
    if deps.len() == 0 {
        None
    } else if deps[0].context == context && deps[0].name == name {
        Some(0)
    } else {
        match first_named(deps.drop_first(), context, name) {
            Some(i) => Some(i + 1),
            None => None,
        }
    }
}

/// A replacement of the text in some byte columns of a row.
#[derive(Debug)]
pub struct VersionEdit {
    pub row: u32,
    pub cols: Range<u32>,
    pub text: String,
}

/// What a [`VersionEdit`] says.
#[verifier::ext_equal]
pub struct EditView {
    pub row: u32,
    pub cols: Range<u32>,
    pub text: Seq<char>,
}

impl View for VersionEdit {
    type V = EditView;

    open spec fn view(&self) -> EditView {
        EditView { row: self.row, cols: self.cols, text: self.text@ }
    }
}

/// The edit that rewrites the entry with the given context and name to a version.
/// There is none if there is no such entry or it has that version already.
pub open spec fn version_edit(
    deps: Seq<DependencyView>,
    context: Seq<char>,
    name: Seq<char>,
    version: VersionView,
) -> Option<EditView> {
    match first_named(deps, context, name) {
        Some(i) => {
            let dep = deps[i as int];
            let text = rewritten(dep.spec, version);
            if text == dep.spec {
                None
            } else {
                Some(EditView { row: dep.row, cols: dep.value_cols, text })
            }
        },
        None => None,
    }
}

/// Where the entry with the given context and name stands.
fn find_named(deps: &Vec<Dependency>, context: &str, name: &str) -> (r: Option<usize>)
    ensures
        match r {
            Some(i) => i < deps@.len() && first_named(dep_views(deps@), context@, name@) == Some(
                i as nat,
            ),
            None => first_named(dep_views(deps@), context@, name@) is None,
        },
{
    let ghost all = dep_views(deps@);
    let mut i: usize = 0;
    proof {
        assert(all.skip(0) =~= all);
    }
    while i < deps.len()
        invariant
            i <= deps@.len(),
            all == dep_views(deps@),
            first_named(all, context@, name@) == match first_named(
                all.skip(i as int),
                context@,
                name@,
            ) {
                Some(k) => Some(k + i as nat),
                None => None,
            },
        decreases deps@.len() - i,
    {
        proof {
            assert(all.skip(i as int)[0] == deps@[i as int]@);
            assert(all.skip(i as int).drop_first() =~= all.skip(i + 1));
        }
        if same_text(deps[i].context.as_str(), context) && same_text(deps[i].name.as_str(), name) {
            return Some(i);
        }
        i += 1;
    }
    None
}

/// The edit that rewrites the dependency with the given context and name to
/// `version`, with the range operator (`^`, `~`, ...) it has. The text is read
/// anew, so that the place is right whatever was edited before.
pub fn apply_version_update(
    text: &str,
    kind: LensFile,
    context: &str,
    name: &str,
    version: &Version,
) -> (r: Option<VersionEdit>)
    ensures
        match version_edit(listed(text@, kind), context@, name@, version@) {
            Some(edit) => r matches Some(e) && e@ == edit,
            None => r is None,
        },
{
    let deps = parse_deps(text, kind);
    match find_named(&deps, context, name) {
        Some(i) => {
            let dep = &deps[i];
            let chars = chars_of(dep.spec.as_str());
            let operator: usize = operator_len(chars.as_slice());
            let mut new_spec = text_of(take(chars.as_slice(), operator));
            new_spec.append(version.to_text().as_str());
            if same_text(new_spec.as_str(), dep.spec.as_str()) {
                None
            } else {
                Some(
                    VersionEdit {
                        row: dep.row,
                        cols: Range { start: dep.value_cols.start, end: dep.value_cols.end },
                        text: new_spec,
                    },
                )
            }
        },
        None => None,
    }
}

/// There is nothing to edit exactly where no entry has that context and name, or the
/// first one that has consists of its range operator and that version already.
pub proof fn law_no_edit(
    deps: Seq<DependencyView>,
    context: Seq<char>,
    name: Seq<char>,
    version: VersionView,
)
    ensures
        version_edit(deps, context, name, version) is None <==> (first_named(deps, context, name)
            matches Some(i) ==> deps[i as int].spec == range_prefix(deps[i as int].spec)
            + version_text(version)),
{
}

} // verus!
