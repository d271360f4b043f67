//! Which lens gets which block.
use crate::blocks::{
    adopted, lens_key, match_step, matching, refresh_for, BlockKey, BlockView, Matching, Refresh,
    DEBOUNCE_MS,
};
use crate::lens::{signature, DesiredView};
use vstd::prelude::*;

verus! {

/// Whether a lens is the first of those of its dependency.
pub open spec fn is_first(desired: Seq<DesiredView>, i: int) -> bool {
    forall|j: int|
        0 <= j < i ==> (#[trigger] desired[j]).context != desired[i].context || desired[j].name
            != desired[i].name
}

/// Whether a lens takes over a block: its dependency has one, and it is the first lens of
/// the dependency.
pub open spec fn claims(
    existing: Map<BlockKey, BlockView>,
    desired: Seq<DesiredView>,
    i: int,
) -> bool {
    existing.contains_key(lens_key(desired[i])) && is_first(desired, i)
}

/// Whether a lens takes over a block that shows something else.
pub open spec fn changes(
    existing: Map<BlockKey, BlockView>,
    desired: Seq<DesiredView>,
    i: int,
) -> bool {
    claims(existing, desired, i) && existing[lens_key(desired[i])].signature != signature(
        desired[i].lens,
    )
}

/// How many of the first lenses take over no block.
pub open spec fn new_count(
    existing: Map<BlockKey, BlockView>,
    desired: Seq<DesiredView>,
    n: int,
) -> int
    decreases n,
{
    if n <= 0 {
        0
    } else {
        new_count(existing, desired, n - 1) + if claims(existing, desired, n - 1) {
            0int
        } else {
            1
        }
    }
}

/// How many of the first lenses take over a block that shows something else.
pub open spec fn changed_count(
    existing: Map<BlockKey, BlockView>,
    desired: Seq<DesiredView>,
    n: int,
) -> int
    decreases n,
{
    if n <= 0 {
        0
    } else {
        changed_count(existing, desired, n - 1) + if changes(existing, desired, n - 1) {
            1int
        } else {
            0
        }
    }
}

/// Lenses are of one dependency where their contexts and their names are the same.
pub proof fn law_lens_key(a: DesiredView, b: DesiredView)
    ensures
        lens_key(a) == lens_key(b) <==> a.context == b.context && a.name == b.name,
{
}

/// What is known of the matching after some of the lenses.
spec fn matched(existing: Map<BlockKey, BlockView>, desired: Seq<DesiredView>, n: int) -> Matching {
    matching(existing, desired.take(n))
}

proof fn lemma_matched_step(
    existing: Map<BlockKey, BlockView>,
    desired: Seq<DesiredView>,
    n: int,
)
    requires
        0 <= n < desired.len(),
    ensures
        matched(existing, desired, n + 1) == match_step(matched(existing, desired, n), desired[n]),
{
    let upto = desired.take(n + 1);
    assert(upto.drop_last() =~= desired.take(n));
    assert(upto.last() == desired[n]);
}

/// A block is not taken yet exactly where no lens of its dependency has come.
proof fn lemma_free(
    existing: Map<BlockKey, BlockView>,
    desired: Seq<DesiredView>,
    n: int,
    key: BlockKey,
)
    requires
        0 <= n <= desired.len(),
    ensures
        matched(existing, desired, n).unclaimed.contains_key(key) <==> existing.contains_key(key)
            && forall|j: int| 0 <= j < n ==> lens_key(#[trigger] desired[j]) != key,
        matched(existing, desired, n).unclaimed.contains_key(key)
            ==> matched(existing, desired, n).unclaimed[key] == existing[key],
    decreases n,
{
    if n == 0 {
        assert(desired.take(0) =~= Seq::<DesiredView>::empty());
    } else {
        lemma_free(existing, desired, n - 1, key);
        lemma_matched_step(existing, desired, n - 1);
    }
}

/// Before a lens takes a block, that is free exactly where the lens is the first.
proof fn lemma_claims(existing: Map<BlockKey, BlockView>, desired: Seq<DesiredView>, i: int)
    requires
        0 <= i < desired.len(),
    ensures
        matched(existing, desired, i).unclaimed.contains_key(lens_key(desired[i])) <==> claims(
            existing,
            desired,
            i,
        ),
{
    lemma_free(existing, desired, i, lens_key(desired[i]));
    assert forall|j: int| 0 <= j < i implies (lens_key(#[trigger] desired[j]) != lens_key(
        desired[i],
    )) == (desired[j].context != desired[i].context || desired[j].name != desired[i].name) by {
        law_lens_key(desired[j], desired[i]);
    }
}

proof fn lemma_counts(
    existing: Map<BlockKey, BlockView>,
    desired: Seq<DesiredView>,
    n: int,
    m: int,
)
    requires
        0 <= n <= m <= desired.len(),
    ensures
        0 <= new_count(existing, desired, n) <= new_count(existing, desired, m),
        0 <= changed_count(existing, desired, n) <= changed_count(existing, desired, m),
        matched(existing, desired, n).insert.len() == new_count(existing, desired, n),
        matched(existing, desired, n).replace.len() == changed_count(existing, desired, n),
        new_count(existing, desired, n) <= matched(existing, desired, m).insert.len(),
        matched(existing, desired, n).insert == matched(existing, desired, m).insert.take(
            new_count(existing, desired, n),
        ),
        matched(existing, desired, n).replace == matched(existing, desired, m).replace.take(
            changed_count(existing, desired, n),
        ),
        matched(existing, desired, m).insert.len() == new_count(existing, desired, m),
        matched(existing, desired, m).replace.len() == changed_count(existing, desired, m),
    decreases m,
{
    if m == 0 {
        assert(desired.take(0) =~= Seq::<DesiredView>::empty());
        let st = matched(existing, desired, 0);
        assert(st.insert.take(0) =~= st.insert);
        assert(st.replace.take(0) =~= st.replace);
    } else if n == m {
        lemma_counts(existing, desired, n - 1, n - 1);
        lemma_matched_step(existing, desired, n - 1);
        lemma_claims(existing, desired, n - 1);
        lemma_free(existing, desired, n - 1, lens_key(desired[n - 1]));
        let st = matched(existing, desired, n);
        assert(st.insert.take(st.insert.len() as int) =~= st.insert);
        assert(st.replace.take(st.replace.len() as int) =~= st.replace);
    } else {
        lemma_counts(existing, desired, n, m - 1);
        lemma_matched_step(existing, desired, m - 1);
        lemma_claims(existing, desired, m - 1);
        lemma_free(existing, desired, m - 1, lens_key(desired[m - 1]));
        let (before, st) = (matched(existing, desired, m - 1), matched(existing, desired, m));
        let (a, b) = (new_count(existing, desired, n), changed_count(existing, desired, n));
        assert(st.insert.take(a) =~= before.insert.take(a));
        assert(st.replace.take(b) =~= before.replace.take(b));
    }
}

/// The new blocks are exactly for the lenses that take over none, in their order, and the
/// blocks to draw anew are exactly those that a lens takes over which shows something else,
/// in the order of these lenses. This holds where a dependency is listed twice, too: its
/// first lens takes the block over, and the others get new ones.
pub proof fn law_matched(
    existing: Map<BlockKey, BlockView>,
    desired: Seq<DesiredView>,
    i: int,
)
    requires
        0 <= i < desired.len(),
    ensures
        matching(existing, desired).insert.len() == new_count(
            existing,
            desired,
            desired.len() as int,
        ),
        matching(existing, desired).replace.len() == changed_count(
            existing,
            desired,
            desired.len() as int,
        ),
        !claims(existing, desired, i) ==> {
            let k = new_count(existing, desired, i);
            &&& 0 <= k < matching(existing, desired).insert.len()
            &&& matching(existing, desired).insert[k] == desired[i]
        },
        changes(existing, desired, i) ==> {
            let k = changed_count(existing, desired, i);
            &&& 0 <= k < matching(existing, desired).replace.len()
            &&& matching(existing, desired).replace[k] == (
                existing[lens_key(desired[i])].id,
                desired[i],
            )
        },
{
    let n = desired.len() as int;
    assert(desired.take(n) =~= desired);
    lemma_counts(existing, desired, i, n);
    lemma_counts(existing, desired, i + 1, n);
    lemma_matched_step(existing, desired, i);
    lemma_claims(existing, desired, i);
    lemma_free(existing, desired, i, lens_key(desired[i]));
    let m = matching(existing, desired);
    if !claims(existing, desired, i) {
        let k = new_count(existing, desired, i);
        assert(m.insert.take(k + 1)[k] == m.insert[k]);
    }
    if changes(existing, desired, i) {
        let k = changed_count(existing, desired, i);
        assert(m.replace.take(k + 1)[k] == m.replace[k]);
    }
}

/// The first lens of a dependency.
pub open spec fn is_first_of(desired: Seq<DesiredView>, i: int, key: BlockKey) -> bool {
    0 <= i < desired.len() && lens_key(desired[i]) == key && is_first(desired, i)
}

/// A block stays exactly where its dependency has a lens, under the same number, and then
/// counts as showing the first of these lenses. Every other block is taken away. There are as
/// many new blocks, and as many to draw anew, as lenses that ask for them.
pub proof fn law_kept(
    existing: Map<BlockKey, BlockView>,
    desired: Seq<DesiredView>,
    key: BlockKey,
)
    ensures
        matching(existing, desired).unclaimed.contains_key(key) <==> existing.contains_key(key)
            && forall|j: int| 0 <= j < desired.len() ==> lens_key(#[trigger] desired[j]) != key,
        matching(existing, desired).unclaimed.contains_key(key) ==> matching(
            existing,
            desired,
        ).unclaimed[key] == existing[key],
        matching(existing, desired).insert.len() == new_count(
            existing,
            desired,
            desired.len() as int,
        ),
        matching(existing, desired).replace.len() == changed_count(
            existing,
            desired,
            desired.len() as int,
        ),
        matching(existing, desired).keep.contains_key(key) <==> existing.contains_key(key)
            && exists|j: int| 0 <= j < desired.len() && lens_key(#[trigger] desired[j]) == key,
        forall|i: int| #[trigger]
            is_first_of(desired, i, key) && existing.contains_key(key) ==> matching(
                existing,
                desired,
            ).keep[key] == (BlockView {
                id: existing[key].id,
                signature: signature(desired[i].lens),
            }),
{
    let n = desired.len() as int;
    assert(desired.take(n) =~= desired);
    lemma_free(existing, desired, n, key);
    lemma_kept(existing, desired, n, key);
    lemma_counts(existing, desired, n, n);
}

proof fn lemma_kept(
    existing: Map<BlockKey, BlockView>,
    desired: Seq<DesiredView>,
    n: int,
    key: BlockKey,
)
    requires
        0 <= n <= desired.len(),
    ensures
        matched(existing, desired, n).keep.contains_key(key) <==> existing.contains_key(key)
            && exists|j: int| 0 <= j < n && lens_key(#[trigger] desired[j]) == key,
        forall|i: int| #[trigger]
            is_first_of(desired, i, key) && i < n && existing.contains_key(key) ==> matched(
                existing,
                desired,
                n,
            ).keep[key] == (BlockView {
                id: existing[key].id,
                signature: signature(desired[i].lens),
            }),
    decreases n,
{
    if n == 0 {
        assert(desired.take(0) =~= Seq::<DesiredView>::empty());
    } else {
        let k = n - 1;
        lemma_kept(existing, desired, k, key);
        lemma_matched_step(existing, desired, k);
        lemma_claims(existing, desired, k);
        lemma_free(existing, desired, k, lens_key(desired[k]));
        if lens_key(desired[k]) == key && existing.contains_key(key) && !claims(
            existing,
            desired,
            k,
        ) {
            let j = choose|j: int|
                0 <= j < k && !((#[trigger] desired[j]).context != desired[k].context
                    || desired[j].name != desired[k].name);
            law_lens_key(desired[j], desired[k]);
            assert(lens_key(desired[j]) == key);
        }
        assert forall|i: int| #[trigger]
            is_first_of(desired, i, key) && i < n && existing.contains_key(key) implies matched(
            existing,
            desired,
            n,
        ).keep[key] == (BlockView {
            id: existing[key].id,
            signature: signature(desired[i].lens),
        }) by {
            if i < k && lens_key(desired[k]) == key {
                law_lens_key(desired[i], desired[k]);
                if claims(existing, desired, k) {
                    assert(desired[i].context != desired[k].context || desired[i].name
                        != desired[k].name);
                }
            }
        }
    }
}

/// A new block counts under its dependency with the number that the editor gave it and the
/// signature of its lens; where there are more of one dependency the last counts. Other
/// blocks are as before.
pub proof fn law_adopted(
    keep: Map<BlockKey, BlockView>,
    inserted: Seq<DesiredView>,
    ids: Seq<u64>,
    n: nat,
    key: BlockKey,
    i: int,
)
    requires
        n <= inserted.len(),
        n <= ids.len(),
    ensures
        (forall|j: int| 0 <= j < n ==> lens_key(#[trigger] inserted[j]) != key) ==> {
            &&& adopted(keep, inserted, ids, n).contains_key(key) == keep.contains_key(key)
            &&& keep.contains_key(key) ==> adopted(keep, inserted, ids, n)[key] == keep[key]
        },
        0 <= i < n && lens_key(inserted[i]) == key && (forall|j: int|
            i < j < n ==> lens_key(#[trigger] inserted[j]) != key) ==> {
            &&& adopted(keep, inserted, ids, n).contains_key(key)
            &&& adopted(keep, inserted, ids, n)[key] == (BlockView {
                id: ids[i],
                signature: signature(inserted[i].lens),
            })
        },
    decreases n,
{
    if n > 0 {
        law_adopted(keep, inserted, ids, (n - 1) as nat, key, i);
    }
}

/// What comes of an edit: a file without lenses is cleared, the lenses of another one come
/// at once the first time and after a delay of 150 milliseconds from then on.
pub proof fn law_refresh(initialized: bool)
    ensures
        refresh_for(initialized, false) == Refresh::Clear,
        refresh_for(false, true) == Refresh::Now,
        refresh_for(true, true) == Refresh::Later,
        DEBOUNCE_MS == 150,
{
}

} // verus!
