//! The blocks that an editor shows its lenses in.
use crate::lens::{
    desired_lenses, desired_views, lens_signature, signature, DesiredLens, DesiredView, StateView,
};
use crate::manifest::DependencyView;
use crate::text::same_text;
use crate::workspace::ContextView;
use vstd::prelude::*;

verus! {

/// Which dependency a block stands above: its context and its name.
pub type BlockKey = (Seq<char>, Seq<char>);

/// A block above a dependency.
#[derive(Debug)]
pub struct LensBlock {
    /// The number under which the editor knows the block.
    pub id: u64,
    /// The signature of the lens that the block shows.
    pub signature: String,
}

/// What a [`LensBlock`] says.
#[verifier::ext_equal]
pub struct BlockView {
    pub id: u64,
    pub signature: Seq<char>,
}

impl View for LensBlock {
    type V = BlockView;

    open spec fn view(&self) -> BlockView {
        BlockView { id: self.id, signature: self.signature@ }
    }
}

/// An entry of a [`BlockMap`].
#[derive(Debug)]
struct Entry {
    context: String,
    name: String,
    block: LensBlock,
}

/// The blocks of an editor by the dependencies that they stand above. No
/// dependency has two blocks.
#[derive(Debug)]
pub struct BlockMap {
    entries: Vec<Entry>,
}

impl View for BlockMap {
    type V = Map<BlockKey, BlockView>;

    closed spec fn view(&self) -> Map<BlockKey, BlockView> {
        contents(self.entries@)
    }
}

spec fn key_of(entry: Entry) -> BlockKey {
    (entry.context@, entry.name@)
}

/// Whether the key stands at the given place.
spec fn key_at(entries: Seq<Entry>, i: int, key: BlockKey) -> bool {
    0 <= i < entries.len() && key_of(entries[i]) == key
}

/// The map that the entries make.
spec fn contents(entries: Seq<Entry>) -> Map<BlockKey, BlockView> {
    Map::new(
        |key: BlockKey| exists|i: int| key_at(entries, i, key),
        |key: BlockKey| entries[choose|i: int| key_at(entries, i, key)].block@,
    )
}

spec fn distinct(entries: Seq<Entry>) -> bool {
    forall|i: int, j: int, key: BlockKey|
        #[trigger] key_at(entries, i, key) && #[trigger] key_at(entries, j, key) ==> i == j
}

/// Whether one of the blocks has the given number.
pub open spec fn has_id(blocks: Map<BlockKey, BlockView>, id: u64) -> bool {
    exists|key: BlockKey| #[trigger] blocks.contains_key(key) && blocks[key].id == id
}

proof fn lemma_found(entries: Seq<Entry>, i: int)
    requires
        distinct(entries),
        0 <= i < entries.len(),
    ensures
        contents(entries).contains_key(key_of(entries[i])),
        contents(entries)[key_of(entries[i])] == entries[i].block@,
{
    assert(key_at(entries, i, key_of(entries[i])));
}

/// Whether a number is in the list.
fn is_among(ids: &Vec<u64>, id: u64) -> (r: bool)
    ensures
        r == ids@.contains(id),
{
    let mut i: usize = 0;
    while i < ids.len()
        invariant
            i <= ids@.len(),
            forall|k: int| 0 <= k < i ==> ids@[k] != id,
        decreases ids@.len() - i,
    {
        if ids[i] == id {
            assert(ids@[i as int] == id);
            return true;
        }
        i += 1;
    }
    false
}

impl BlockMap {
    #[verifier::type_invariant]
    spec fn well_formed(self) -> bool {
        distinct(self.entries@)
    }

    pub fn new() -> (r: BlockMap)
        ensures
            r@ == Map::<BlockKey, BlockView>::empty(),
    {
        let entries: Vec<Entry> = Vec::new();
        proof {
            assert(contents(entries@) =~= Map::<BlockKey, BlockView>::empty());
        }
        BlockMap { entries }
    }

    /// The place of the key among the entries.
    fn position(entries: &Vec<Entry>, context: &str, name: &str) -> (r: Option<usize>)
        ensures
            match r {
                Some(i) => key_at(entries@, i as int, (context@, name@)),
                None => forall|i: int| !#[trigger] key_at(entries@, i, (context@, name@)),
            },
    {
        let mut i: usize = 0;
        while i < entries.len()
            invariant
                i <= entries@.len(),
                forall|k: int| 0 <= k < i ==> !#[trigger] key_at(entries@, k, (context@, name@)),
            decreases entries@.len() - i,
        {
            if same_text(entries[i].context.as_str(), context) && same_text(
                entries[i].name.as_str(),
                name,
            ) {
                return Some(i);
            }
            i += 1;
        }
        None
    }

    /// The numbers of all blocks, each once.
    pub fn ids(&self) -> (r: Vec<u64>)
        ensures
            forall|id: u64| #[trigger] r@.contains(id) <==> has_id(self@, id),
            r@.no_duplicates(),
    {
        proof {
            use_type_invariant(self);
        }
        let mut out: Vec<u64> = Vec::new();
        let mut i: usize = 0;
        while i < self.entries.len()
            invariant
                i <= self.entries@.len(),
                forall|k: int|
                    0 <= k < i ==> out@.contains((#[trigger] self.entries@[k]).block.id),
                forall|m: int|
                    0 <= m < out@.len() ==> exists|k: int|
                        0 <= k < i && (#[trigger] self.entries@[k]).block.id == #[trigger] out@[m],
                out@.no_duplicates(),
            decreases self.entries@.len() - i,
        {
            let id: u64 = self.entries[i].block.id;
            let ghost before = out@;
            if !is_among(&out, id) {
                out.push(id);
                proof {
                    assert(out@[before.len() as int] == id);
                    assert forall|k: int| 0 <= k < i implies out@.contains(
                        (#[trigger] self.entries@[k]).block.id,
                    ) by {
                        let m = choose|m: int|
                            0 <= m < before.len() && before[m] == self.entries@[k].block.id;
                        assert(out@[m] == before[m]);
                    }
                    assert forall|m: int| 0 <= m < out@.len() implies exists|k: int|
                        0 <= k < i + 1 && (#[trigger] self.entries@[k]).block.id
                            == #[trigger] out@[m] by {
                        if m < before.len() {
                            assert(out@[m] == before[m]);
                        } else {
                            assert(self.entries@[i as int].block.id == out@[m]);
                        }
                    }
                }
            }
            i += 1;
        }
        proof {
            let entries = self.entries@;
            assert forall|id: u64| #[trigger] out@.contains(id) <==> has_id(self@, id) by {
                if out@.contains(id) {
                    let m = choose|m: int| 0 <= m < out@.len() && out@[m] == id;
                    let k = choose|k: int|
                        0 <= k < entries.len() && (#[trigger] entries[k]).block.id == out@[m];
                    lemma_found(entries, k);
                    assert(self@.contains_key(key_of(entries[k])));
                }
                if has_id(self@, id) {
                    let key = choose|key: BlockKey|
                        #[trigger] self@.contains_key(key) && self@[key].id == id;
                    let k = choose|k: int| key_at(entries, k, key);
                    lemma_found(entries, k);
                    assert(out@.contains(entries[k].block.id));
                }
            }
        }
        out
    }

    /// Puts the block above the dependency, in place of the one that was there.
    pub fn insert(&mut self, context: String, name: String, block: LensBlock)
        ensures
            final(self)@ == old(self)@.insert((context@, name@), block@),
    {
        proof {
            use_type_invariant(&*self);
        }
        let mut entries: Vec<Entry> = Vec::new();
        std::mem::swap(&mut entries, &mut self.entries);
        let ghost before = entries@;
        let ghost k = (context@, name@);
        let ghost value = block@;
        match Self::position(&entries, context.as_str(), name.as_str()) {
            Some(i) => {
                entries.set(i, Entry { context, name, block });
                proof {
                    assert forall|j: int, c: BlockKey|
                        #[trigger] key_at(entries@, j, c) == key_at(before, j, c) by {}
                    assert(contents(entries@) =~= contents(before).insert(k, value)) by {
                        lemma_found(entries@, i as int);
                        lemma_same_elsewhere(before, entries@, i as int);
                    }
                }
            },
            None => {
                entries.push(Entry { context, name, block });
                proof {
                    let last = before.len() as int;
                    assert forall|j: int, c: BlockKey|
                        #[trigger] key_at(entries@, j, c) == (key_at(before, j, c) || (j == last
                            && c == k)) by {}
                    assert(contents(entries@) =~= contents(before).insert(k, value)) by {
                        lemma_found(entries@, last);
                        lemma_same_elsewhere(before, entries@, last);
                    }
                }
            },
        }
        self.entries = entries;
    }

    /// Takes the block above the dependency out of the map.
    pub fn remove(&mut self, context: &str, name: &str) -> (r: Option<LensBlock>)
        ensures
            match r {
                Some(block) => old(self)@.contains_key((context@, name@)) && block@ == old(
                    self,
                )@[(context@, name@)],
                None => !old(self)@.contains_key((context@, name@)),
            },
            final(self)@ == old(self)@.remove((context@, name@)),
    {
        proof {
            use_type_invariant(&*self);
        }
        let mut entries: Vec<Entry> = Vec::new();
        std::mem::swap(&mut entries, &mut self.entries);
        let ghost before = entries@;
        match Self::position(&entries, context, name) {
            Some(i) => {
                let taken = entries.remove(i);
                proof {
                    assert forall|j: int, c: BlockKey| #[trigger]
                        key_at(entries@, j, c) == (if j < i {
                            key_at(before, j, c)
                        } else {
                            key_at(before, j + 1, c)
                        }) by {}
                    lemma_found(before, i as int);
                    lemma_removed(before, entries@, i as int);
                }
                self.entries = entries;
                Some(taken.block)
            },
            None => {
                proof {
                    assert(contents(before).remove((context@, name@)) =~= contents(before));
                }
                self.entries = entries;
                None
            },
        }
    }
}

/// Entries that agree but for one place hold the same under all other keys.
proof fn lemma_same_elsewhere(before: Seq<Entry>, after: Seq<Entry>, at: int)
    requires
        distinct(before),
        distinct(after),
        0 <= at < after.len(),
        before.len() <= after.len() <= before.len() + 1,
        at < before.len() ==> key_of(before[at]) == key_of(after[at]),
        after.len() > before.len() ==> at == before.len(),
        forall|j: int| 0 <= j < before.len() && j != at ==> before[j] == after[j],
    ensures
        forall|c: BlockKey|
            c != key_of(after[at]) ==> contents(before).contains_key(c) == #[trigger] contents(
                after,
            ).contains_key(c),
        forall|c: BlockKey|
            c != key_of(after[at]) && contents(before).contains_key(c) ==> contents(before)[c]
                == #[trigger] contents(after)[c],
{
    assert forall|c: BlockKey| c != key_of(after[at]) implies contents(before).contains_key(c)
        == #[trigger] contents(after).contains_key(c) by {
        if contents(before).contains_key(c) {
            let i = choose|i: int| key_at(before, i, c);
            assert(key_at(after, i, c));
        }
        if contents(after).contains_key(c) {
            let i = choose|i: int| key_at(after, i, c);
            assert(key_at(before, i, c));
        }
    }
    assert forall|c: BlockKey|
        c != key_of(after[at]) && contents(before).contains_key(c) implies contents(before)[c]
        == #[trigger] contents(after)[c] by {
        let i = choose|i: int| key_at(before, i, c);
        assert(key_at(after, i, c));
        lemma_found(before, i);
        lemma_found(after, i);
    }
}

proof fn lemma_removed(before: Seq<Entry>, after: Seq<Entry>, at: int)
    requires
        distinct(before),
        0 <= at < before.len(),
        after == before.remove(at),
        distinct(after),
    ensures
        contents(after) == contents(before).remove(key_of(before[at])),
{
    let gone = key_of(before[at]);
    let m = contents(before).remove(gone);
    assert forall|c: BlockKey| contents(after).contains_key(c) == #[trigger] m.contains_key(
        c,
    ) by {
        if contents(after).contains_key(c) {
            let i = choose|i: int| key_at(after, i, c);
            let j = if i < at {
                i
            } else {
                i + 1
            };
            assert(key_at(before, j, c));
            if c == gone {
                assert(key_at(before, at, c));
            }
        }
        if m.contains_key(c) {
            let i = choose|i: int| key_at(before, i, c);
            if i < at {
                assert(key_at(after, i, c));
            } else {
                assert(i != at);
                assert(key_at(after, i - 1, c));
            }
        }
    }
    assert forall|c: BlockKey| m.contains_key(c) implies contents(after)[c] == #[trigger] m[c] by {
        let i = choose|i: int| key_at(before, i, c);
        lemma_found(before, i);
        if i < at {
            assert(key_at(after, i, c));
            lemma_found(after, i);
        } else {
            assert(key_at(after, i - 1, c));
            lemma_found(after, i - 1);
        }
    }
    assert(contents(after) =~= m);
}

/// What is known while the lenses of a file are matched with its blocks.
#[verifier::ext_equal]
pub struct Matching {
    /// The blocks that no lens has taken yet.
    pub unclaimed: Map<BlockKey, BlockView>,
    /// The blocks that stay, with the signatures of their new lenses.
    pub keep: Map<BlockKey, BlockView>,
    /// The blocks that show another lens from now on.
    pub replace: Seq<(u64, DesiredView)>,
    /// The lenses that need a new block.
    pub insert: Seq<DesiredView>,
}

/// The dependency that a lens stands above.
pub open spec fn lens_key(desired: DesiredView) -> BlockKey {
    (desired.context, desired.name)
}

/// Matches one more lens: it takes the block of its dependency, which is drawn
/// anew only if the signature differs, or it needs a new block.
pub open spec fn match_step(st: Matching, desired: DesiredView) -> Matching {
    let key = lens_key(desired);
    let mark = signature(desired.lens);
    if st.unclaimed.contains_key(key) {
        let block = st.unclaimed[key];
        Matching {
            unclaimed: st.unclaimed.remove(key),
            keep: st.keep.insert(key, BlockView { id: block.id, signature: mark }),
            replace: if block.signature == mark {
                st.replace
            } else {
                st.replace.push((block.id, desired))
            },
            insert: st.insert,
        }
    } else {
        Matching { insert: st.insert.push(desired), ..st }
    }
}

/// Matches the lenses of a file with its blocks.
pub open spec fn matching(existing: Map<BlockKey, BlockView>, desired: Seq<DesiredView>) -> Matching
    decreases desired.len(),
{
    if desired.len() == 0 {
        Matching {
            unclaimed: existing,
            keep: Map::empty(),
            replace: seq![],
            insert: seq![],
        }
    } else {
        match_step(matching(existing, desired.drop_last()), desired.last())
    }
}

/// What is to be done to the blocks of an editor.
#[derive(Debug)]
pub struct Reconciliation {
    /// The blocks that stay.
    pub keep: BlockMap,
    /// The blocks to draw anew, each with its lens.
    pub replace: Vec<(u64, DesiredLens)>,
    /// The lenses that need a new block above their row.
    pub insert: Vec<DesiredLens>,
    /// The blocks to take away.
    pub remove: Vec<u64>,
}

/// What the replacements say.
pub open spec fn replace_views(replace: Seq<(u64, DesiredLens)>) -> Seq<(u64, DesiredView)> {
    Seq::new(replace.len(), |i: int| (replace[i].0, replace[i].1@))
}

/// Matches the lenses of a file with its blocks: a dependency that had a block
/// keeps it, one that had none gets one, and blocks without a lens go.
pub fn reconcile_version_lens_blocks(existing: BlockMap, desired: Vec<DesiredLens>) -> (r:
    Reconciliation)
    ensures
        ({
            let m = matching(existing@, desired_views(desired@));
            &&& r.keep@ == m.keep
            &&& replace_views(r.replace@) == m.replace
            &&& desired_views(r.insert@) == m.insert
            &&& forall|id: u64| #[trigger] r.remove@.contains(id) <==> has_id(m.unclaimed, id)
            &&& r.remove@.no_duplicates()
        }),
{
    let ghost start = existing@;
    let ghost all = desired_views(desired@);
    let mut unclaimed = existing;
    let mut keep = BlockMap::new();
    let mut replace: Vec<(u64, DesiredLens)> = Vec::new();
    let mut insert: Vec<DesiredLens> = Vec::new();
    let ghost given = desired@;
    proof {
        assert(all.take(0) =~= seq![]);
        assert(replace_views(replace@) =~= seq![]);
        assert(desired_views(insert@) =~= seq![]);
    }
    for next in it: desired
        invariant
            it.seq() == given,
            all == desired_views(given),
            matching(start, all.take(it.index() as int)) == (Matching {
                unclaimed: unclaimed@,
                keep: keep@,
                replace: replace_views(replace@),
                insert: desired_views(insert@),
            }),
    {
        proof {
            let k = it.index() as int;
            assert(all.take(k + 1).drop_last() =~= all.take(k));
            assert(all.take(k + 1).last() == next@);
        }
        let mark = lens_signature(&next.lens);
        match unclaimed.remove(next.context.as_str(), next.name.as_str()) {
            Some(block) => {
                keep.insert(
                    next.context.clone(),
                    next.name.clone(),
                    LensBlock { id: block.id, signature: mark.clone() },
                );
                if !same_text(block.signature.as_str(), mark.as_str()) {
                    let ghost before = replace_views(replace@);
                    replace.push((block.id, next));
                    proof {
                        assert(replace_views(replace@) =~= before.push((block.id, next@)));
                    }
                }
            },
            None => {
                let ghost before = desired_views(insert@);
                insert.push(next);
                proof {
                    assert(desired_views(insert@) =~= before.push(next@));
                }
            },
        }
    }
    proof {
        assert(all.take(given.len() as int) =~= all);
    }
    Reconciliation { keep, replace, insert, remove: unclaimed.ids() }
}

/// The blocks once the first `n` of the new ones have got their numbers.
pub open spec fn adopted(
    keep: Map<BlockKey, BlockView>,
    inserted: Seq<DesiredView>,
    ids: Seq<u64>,
    n: nat,
) -> Map<BlockKey, BlockView>
    decreases n,
{
    if n == 0 {
        keep
    } else {
        adopted(keep, inserted, ids, (n - 1) as nat).insert(
            lens_key(inserted[n - 1]),
            BlockView { id: ids[n - 1], signature: signature(inserted[n - 1].lens) },
        )
    }
}

/// Adds the blocks that were inserted for new lenses, with the numbers that the
/// editor gave them in the order of the lenses.
pub fn adopt_blocks(keep: BlockMap, inserted: &Vec<DesiredLens>, ids: &Vec<u64>) -> (r: BlockMap)
    ensures
        r@ == adopted(
            keep@,
            desired_views(inserted@),
            ids@,
            if ids@.len() < inserted@.len() {
                ids@.len()
            } else {
                inserted@.len()
            },
        ),
{
    let ghost start = keep@;
    let ghost all = desired_views(inserted@);
    let mut blocks = keep;
    let mut i: usize = 0;
    while i < inserted.len() && i < ids.len()
        invariant
            i <= inserted@.len(),
            i <= ids@.len(),
            all == desired_views(inserted@),
            blocks@ == adopted(start, all, ids@, i as nat),
        decreases inserted@.len() - i,
    {
        let lens = &inserted[i];
        blocks.insert(
            lens.context.clone(),
            lens.name.clone(),
            LensBlock { id: ids[i], signature: lens_signature(&lens.lens) },
        );
        i += 1;
    }
    blocks
}

/// What an editor remembers of its lenses.
#[derive(Debug)]
pub struct VersionLensState {
    pub blocks: BlockMap,
    /// Whether the first lenses have been placed. They are placed at once, so that
    /// nothing moves later; what follows can wait for more edits.
    pub initialized: bool,
}

/// What an editor does about its lenses after its text was parsed.
#[derive(Clone, Copy, Debug, PartialEq, Eq, Structural)]
pub enum Refresh {
    /// Take all lenses away.
    Clear,
    /// Update them at once.
    Now,
    /// Update them when no more edits have come for a while.
    Later,
}

/// How long an editor waits for more edits, in milliseconds.
pub const DEBOUNCE_MS: u64 = 150;

/// What an editor does after its text was parsed.
pub open spec fn refresh_for(initialized: bool, is_lens_file: bool) -> Refresh {
    if !is_lens_file {
        Refresh::Clear
    } else if !initialized {
        Refresh::Now
    } else {
        Refresh::Later
    }
}

impl VersionLensState {
    pub fn new() -> (r: VersionLensState)
        ensures
            r.blocks@ == Map::<BlockKey, BlockView>::empty(),
            !r.initialized,
    {
        VersionLensState { blocks: BlockMap::new(), initialized: false }
    }

    /// Decides what is to be done after the text of a file was parsed. The first
    /// time it is at once.
    pub fn schedule_version_lens_refresh(&mut self, is_lens_file: bool) -> (r: Refresh)
        ensures
            r == refresh_for(old(self).initialized, is_lens_file),
            final(self).initialized == (old(self).initialized || is_lens_file),
            final(self).blocks@ == old(self).blocks@,
    {
        if !is_lens_file {
            Refresh::Clear
        } else if !self.initialized {
            self.initialized = true;
            Refresh::Now
        } else {
            Refresh::Later
        }
    }

    /// Forgets all blocks, and says which ones the editor is to take away.
    pub fn clear_version_lens(&mut self) -> (r: Vec<u64>)
        ensures
            forall|id: u64| #[trigger] r@.contains(id) <==> has_id(old(self).blocks@, id),
            r@.no_duplicates(),
            final(self).blocks@ == Map::<BlockKey, BlockView>::empty(),
            final(self).initialized == old(self).initialized,
    {
        let ids = self.blocks.ids();
        self.blocks = BlockMap::new();
        ids
    }

    /// Takes the blocks out, to match them with new lenses.
    pub fn take_blocks(&mut self) -> (r: BlockMap)
        ensures
            r@ == old(self).blocks@,
            final(self).blocks@ == Map::<BlockKey, BlockView>::empty(),
            final(self).initialized == old(self).initialized,
    {
        let mut blocks = BlockMap::new();
        std::mem::swap(&mut blocks, &mut self.blocks);
        blocks
    }
}

/// Whether no two lenses stand above the same dependency.
pub open spec fn distinct_keys(desired: Seq<DesiredView>) -> bool {
    forall|i: int, j: int|
        0 <= i < j < desired.len() ==> lens_key(#[trigger] desired[i]) != lens_key(
            #[trigger] desired[j],
        )
}

/// The block that a lens is to have, with the given number.
pub open spec fn block_for(desired: DesiredView, id: u64) -> BlockView {
    BlockView { id, signature: signature(desired.lens) }
}

/// Whether one of the lenses stands above the dependency.
pub open spec fn is_desired(desired: Seq<DesiredView>, key: BlockKey) -> bool {
    exists|i: int| 0 <= i < desired.len() && lens_key(#[trigger] desired[i]) == key
}

proof fn lemma_desired_last(desired: Seq<DesiredView>, key: BlockKey)
    requires
        desired.len() > 0,
    ensures
        is_desired(desired, key) == (is_desired(desired.drop_last(), key) || lens_key(
            desired.last(),
        ) == key),
{
    let rest = desired.drop_last();
    if is_desired(rest, key) {
        let i = choose|i: int| 0 <= i < rest.len() && lens_key(#[trigger] rest[i]) == key;
        assert(lens_key(desired[i]) == key);
    }
    if is_desired(desired, key) && lens_key(desired.last()) != key {
        let i = choose|i: int| 0 <= i < desired.len() && lens_key(#[trigger] desired[i]) == key;
        assert(lens_key(rest[i]) == key);
    }
    if lens_key(desired.last()) == key {
        assert(lens_key(desired[desired.len() - 1]) == key);
    }
}

/// What matching comes to for one dependency.
proof fn lemma_matching(
    existing: Map<BlockKey, BlockView>,
    desired: Seq<DesiredView>,
    key: BlockKey,
)
    requires
        distinct_keys(desired),
    ensures
        ({
            let m = matching(existing, desired);
            &&& m.unclaimed.contains_key(key) == (existing.contains_key(key) && !is_desired(
                desired,
                key,
            ))
            &&& m.unclaimed.contains_key(key) ==> m.unclaimed[key] == existing[key]
            &&& m.keep.contains_key(key) == (existing.contains_key(key) && is_desired(desired, key))
            &&& m.keep.contains_key(key) ==> m.keep[key].id == existing[key].id
        }),
    decreases desired.len(),
{
    if desired.len() > 0 {
        let rest = desired.drop_last();
        assert forall|i: int, j: int| 0 <= i < j < rest.len() implies lens_key(
            #[trigger] rest[i],
        ) != lens_key(#[trigger] rest[j]) by {
            assert(lens_key(desired[i]) != lens_key(desired[j]));
        }
        lemma_matching(existing, rest, key);
        lemma_desired_last(desired, key);
        if lens_key(desired.last()) == key && is_desired(rest, key) {
            let i = choose|i: int| 0 <= i < rest.len() && lens_key(#[trigger] rest[i]) == key;
            assert(lens_key(desired[i]) != lens_key(desired[desired.len() - 1]));
        }
    }
}

/// Lenses update in place: where no dependency is listed twice, a dependency that
/// had a block and still has a lens keeps that very block, and a block goes only
/// if its dependency has no lens any more.
pub proof fn law_blocks_stay(
    existing: Map<BlockKey, BlockView>,
    desired: Seq<DesiredView>,
    key: BlockKey,
)
    requires
        distinct_keys(desired),
        existing.contains_key(key),
    ensures
        ({
            let m = matching(existing, desired);
            if is_desired(desired, key) {
                &&& m.keep.contains_key(key)
                &&& m.keep[key].id == existing[key].id
                &&& !m.unclaimed.contains_key(key)
            } else {
                &&& !m.keep.contains_key(key)
                &&& m.unclaimed.contains_key(key)
                &&& m.unclaimed[key] == existing[key]
            }
        }),
{
    lemma_matching(existing, desired, key);
}

proof fn lemma_distinct_prefix(desired: Seq<DesiredView>)
    requires
        distinct_keys(desired),
        desired.len() > 0,
    ensures
        distinct_keys(desired.drop_last()),
        !is_desired(desired.drop_last(), lens_key(desired.last())),
{
    let rest = desired.drop_last();
    assert forall|i: int, j: int| 0 <= i < j < rest.len() implies lens_key(#[trigger] rest[i])
        != lens_key(#[trigger] rest[j]) by {
        assert(lens_key(desired[i]) != lens_key(desired[j]));
    }
    let key = lens_key(desired.last());
    if is_desired(rest, key) {
        let i = choose|i: int| 0 <= i < rest.len() && lens_key(#[trigger] rest[i]) == key;
        assert(lens_key(desired[i]) != lens_key(desired[desired.len() - 1]));
    }
}

/// Whether a block shows another lens than the one it is to show.
pub open spec fn is_outdated(existing: Map<BlockKey, BlockView>, desired: DesiredView) -> bool {
    existing.contains_key(lens_key(desired)) && existing[lens_key(desired)].signature != signature(
        desired.lens,
    )
}

/// What matching comes to for one lens.
proof fn lemma_matched_lens(
    existing: Map<BlockKey, BlockView>,
    desired: Seq<DesiredView>,
    lens: DesiredView,
)
    requires
        distinct_keys(desired),
    ensures
        ({
            let m = matching(existing, desired);
            &&& m.insert.contains(lens) == (desired.contains(lens) && !existing.contains_key(
                lens_key(lens),
            ))
            &&& desired.contains(lens) && existing.contains_key(lens_key(lens))
                ==> m.keep.contains_key(lens_key(lens)) && m.keep[lens_key(lens)] == block_for(
                lens,
                existing[lens_key(lens)].id,
            )
            &&& forall|id: u64|
                #[trigger] m.replace.contains((id, lens)) <==> desired.contains(lens)
                    && is_outdated(existing, lens) && existing[lens_key(lens)].id == id
        }),
    decreases desired.len(),
{
    let m = matching(existing, desired);
    if desired.len() > 0 {
        let rest = desired.drop_last();
        let last = desired.last();
        let before = matching(existing, rest);
        lemma_distinct_prefix(desired);
        lemma_matched_lens(existing, rest, lens);
        lemma_matching(existing, rest, lens_key(last));
        assert(desired =~= rest.push(last));
        assert(desired.contains(lens) == (rest.contains(lens) || lens == last)) by {
            if rest.contains(lens) {
                let i = choose|i: int| 0 <= i < rest.len() && rest[i] == lens;
                assert(desired[i] == lens);
            }
            if lens == last {
                assert(desired[desired.len() - 1] == lens);
            }
        }
        if rest.contains(lens) {
            let i = choose|i: int| 0 <= i < rest.len() && rest[i] == lens;
            assert(is_desired(rest, lens_key(rest[i])));
        }
        assert(m.insert.contains(lens) == (before.insert.contains(lens) || (m.insert.len()
            > before.insert.len() && lens == last))) by {
            if before.insert.contains(lens) {
                let i = choose|i: int| 0 <= i < before.insert.len() && before.insert[i] == lens;
                assert(m.insert[i] == lens);
            }
            if m.insert.len() > before.insert.len() && lens == last {
                assert(m.insert[before.insert.len() as int] == lens);
            }
        }
        assert forall|id: u64|
            #[trigger] m.replace.contains((id, lens)) <==> desired.contains(lens) && is_outdated(
                existing,
                lens,
            ) && existing[lens_key(lens)].id == id by {
            if before.replace.contains((id, lens)) {
                let i = choose|i: int|
                    0 <= i < before.replace.len() && before.replace[i] == (id, lens);
                assert(m.replace[i] == (id, lens));
            }
            if m.replace.len() > before.replace.len() {
                assert(m.replace[before.replace.len() as int] == (
                    existing[lens_key(last)].id,
                    last,
                ));
            }
        }
    }
}

/// A block is drawn anew exactly if it still has a lens and that lens has another
/// signature than before, and it is drawn with the new lens.
pub proof fn law_redrawn_when_changed(
    existing: Map<BlockKey, BlockView>,
    desired: Seq<DesiredView>,
    id: u64,
    lens: DesiredView,
)
    requires
        distinct_keys(desired),
    ensures
        matching(existing, desired).replace.contains((id, lens)) <==> desired.contains(lens)
            && is_outdated(existing, lens) && existing[lens_key(lens)].id == id,
{
    lemma_matched_lens(existing, desired, lens);
}

/// Whether the blocks are exactly those of the lenses, with their signatures.
pub open spec fn shows(blocks: Map<BlockKey, BlockView>, desired: Seq<DesiredView>) -> bool {
    &&& forall|key: BlockKey| #[trigger] blocks.contains_key(key) <==> is_desired(desired, key)
    &&& forall|i: int|
        0 <= i < desired.len() ==> blocks[lens_key(#[trigger] desired[i])].signature == signature(
            desired[i].lens,
        )
}

proof fn lemma_adopted(
    keep: Map<BlockKey, BlockView>,
    inserted: Seq<DesiredView>,
    ids: Seq<u64>,
    n: nat,
    key: BlockKey,
)
    requires
        n <= inserted.len(),
    ensures
        adopted(keep, inserted, ids, n).contains_key(key) == (keep.contains_key(key) || is_desired(
            inserted.take(n as int),
            key,
        )),
        !is_desired(inserted.take(n as int), key) && keep.contains_key(key) ==> adopted(
            keep,
            inserted,
            ids,
            n,
        )[key] == keep[key],
        is_desired(inserted.take(n as int), key) ==> exists|i: int|
            0 <= i < n && lens_key(#[trigger] inserted[i]) == key && adopted(
                keep,
                inserted,
                ids,
                n,
            )[key] == block_for(inserted[i], ids[i]),
    decreases n,
{
    if n > 0 {
        let prefix = inserted.take(n as int);
        lemma_adopted(keep, inserted, ids, (n - 1) as nat, key);
        assert(prefix.drop_last() =~= inserted.take(n - 1));
        lemma_desired_last(prefix, key);
        if lens_key(inserted[n - 1]) == key {
            assert(adopted(keep, inserted, ids, n)[key] == block_for(
                inserted[n - 1],
                ids[n - 1],
            ));
        }
    }
}

/// Every lens gets exactly one block: where no dependency is listed twice and the
/// editor gives every new block a number, the blocks after an update are exactly
/// those of the lenses, with the lenses' signatures.
pub proof fn law_one_block_per_lens(
    existing: Map<BlockKey, BlockView>,
    desired: Seq<DesiredView>,
    ids: Seq<u64>,
)
    requires
        distinct_keys(desired),
        ids.len() == matching(existing, desired).insert.len(),
    ensures
        shows(
            adopted(
                matching(existing, desired).keep,
                matching(existing, desired).insert,
                ids,
                ids.len(),
            ),
            desired,
        ),
{
    let m = matching(existing, desired);
    let blocks = adopted(m.keep, m.insert, ids, ids.len());
    assert(m.insert.take(ids.len() as int) =~= m.insert);
    assert forall|key: BlockKey| #[trigger] blocks.contains_key(key) <==> is_desired(
        desired,
        key,
    ) by {
        lemma_matching(existing, desired, key);
        lemma_adopted(m.keep, m.insert, ids, ids.len(), key);
        if is_desired(m.insert, key) {
            let i = choose|i: int| 0 <= i < m.insert.len() && lens_key(#[trigger] m.insert[i]) == key;
            lemma_matched_lens(existing, desired, m.insert[i]);
            assert(m.insert.contains(m.insert[i]));
            let k = choose|k: int| 0 <= k < desired.len() && desired[k] == m.insert[i];
            assert(lens_key(desired[k]) == key);
        }
        if is_desired(desired, key) && !existing.contains_key(key) {
            let i = choose|i: int| 0 <= i < desired.len() && lens_key(#[trigger] desired[i]) == key;
            lemma_matched_lens(existing, desired, desired[i]);
            assert(desired.contains(desired[i]));
            let k = choose|k: int| 0 <= k < m.insert.len() && m.insert[k] == desired[i];
            assert(lens_key(m.insert[k]) == key);
        }
    }
    assert forall|i: int| 0 <= i < desired.len() implies blocks[lens_key(
        #[trigger] desired[i],
    )].signature == signature(desired[i].lens) by {
        let lens = desired[i];
        let key = lens_key(lens);
        assert(desired.contains(lens));
        lemma_matched_lens(existing, desired, lens);
        lemma_adopted(m.keep, m.insert, ids, ids.len(), key);
        if is_desired(m.insert, key) {
            let k = choose|k: int|
                0 <= k < ids.len() && lens_key(#[trigger] m.insert[k]) == key && blocks[key]
                    == block_for(m.insert[k], ids[k]);
            lemma_matched_lens(existing, desired, m.insert[k]);
            assert(m.insert.contains(m.insert[k]));
            let j = choose|j: int| 0 <= j < desired.len() && desired[j] == m.insert[k];
            if i < j {
                assert(lens_key(desired[i]) != lens_key(desired[j]));
            }
            if j < i {
                assert(lens_key(desired[j]) != lens_key(desired[i]));
            }
        } else {
            if !existing.contains_key(key) {
                assert(m.insert.contains(lens));
                let k = choose|k: int| 0 <= k < m.insert.len() && m.insert[k] == lens;
                assert(lens_key(m.insert[k]) == key);
            }
        }
    }
}

/// Nothing moves when nothing changed: blocks that show the lenses already stay as
/// they are. None is drawn anew, none comes and none goes.
pub proof fn law_settled(blocks: Map<BlockKey, BlockView>, desired: Seq<DesiredView>)
    requires
        distinct_keys(desired),
        shows(blocks, desired),
    ensures
        matching(blocks, desired) == (Matching {
            unclaimed: Map::empty(),
            keep: blocks,
            replace: seq![],
            insert: seq![],
        }),
{
    let m = matching(blocks, desired);
    assert forall|key: BlockKey| !#[trigger] m.unclaimed.contains_key(key) by {
        lemma_matching(blocks, desired, key);
        assert(blocks.contains_key(key) <==> is_desired(desired, key));
    }
    assert(m.unclaimed =~= Map::empty());
    if m.insert.len() > 0 {
        let lens = m.insert[0];
        lemma_matched_lens(blocks, desired, lens);
        assert(m.insert.contains(lens));
        let i = choose|i: int| 0 <= i < desired.len() && desired[i] == lens;
        assert(is_desired(desired, lens_key(desired[i])));
        assert(blocks.contains_key(lens_key(lens)));
    }
    assert(m.insert =~= seq![]);
    if m.replace.len() > 0 {
        let (id, lens) = m.replace[0];
        lemma_matched_lens(blocks, desired, lens);
        assert(m.replace.contains((id, lens)));
        let i = choose|i: int| 0 <= i < desired.len() && desired[i] == lens;
        assert(blocks[lens_key(desired[i])].signature == signature(desired[i].lens));
    }
    assert(m.replace =~= seq![]);
    assert forall|key: BlockKey| m.keep.contains_key(key) == #[trigger] blocks.contains_key(
        key,
    ) by {
        lemma_matching(blocks, desired, key);
    }
    assert forall|key: BlockKey| #[trigger] m.keep.contains_key(key) implies m.keep[key]
        == blocks[key] by {
        lemma_matching(blocks, desired, key);
        let i = choose|i: int| 0 <= i < desired.len() && lens_key(#[trigger] desired[i]) == key;
        assert(desired.contains(desired[i]));
        lemma_matched_lens(blocks, desired, desired[i]);
        assert(blocks[lens_key(desired[i])].signature == signature(desired[i].lens));
    }
    assert(m.keep =~= blocks);
}

/// Whether no entry is listed twice in one section or catalog.
pub open spec fn distinct_deps(deps: Seq<DependencyView>) -> bool {
    forall|i: int, j: int|
        0 <= i < j < deps.len() ==> (#[trigger] deps[i]).context != (#[trigger] deps[j]).context
            || deps[i].name != deps[j].name
}

/// A lens stands above one of the dependencies.
proof fn lemma_lens_dep(
    deps: Seq<DependencyView>,
    cache: Map<Seq<char>, StateView>,
    workspace: Option<ContextView>,
    i: int,
) -> (k: int)
    requires
        0 <= i < desired_lenses(deps, cache, workspace).len(),
    ensures
        0 <= k < deps.len(),
        lens_key(desired_lenses(deps, cache, workspace)[i]) == (deps[k].context, deps[k].name),
    decreases deps.len(),
{
    let rest = deps.drop_last();
    if i < desired_lenses(rest, cache, workspace).len() {
        lemma_lens_dep(rest, cache, workspace, i)
    } else {
        deps.len() - 1
    }
}

/// Where no entry is listed twice, no two lenses stand above the same dependency.
pub proof fn law_distinct_lenses(
    deps: Seq<DependencyView>,
    cache: Map<Seq<char>, StateView>,
    workspace: Option<ContextView>,
)
    requires
        distinct_deps(deps),
    ensures
        distinct_keys(desired_lenses(deps, cache, workspace)),
    decreases deps.len(),
{
    if deps.len() > 0 {
        let rest = deps.drop_last();
        let all = desired_lenses(deps, cache, workspace);
        let before = desired_lenses(rest, cache, workspace);
        assert forall|i: int, j: int| 0 <= i < j < rest.len() implies (#[trigger] rest[i]).context
            != (#[trigger] rest[j]).context || rest[i].name != rest[j].name by {
            assert(deps[i].context != deps[j].context || deps[i].name != deps[j].name);
        }
        law_distinct_lenses(rest, cache, workspace);
        assert forall|i: int, j: int| 0 <= i < j < all.len() implies lens_key(#[trigger] all[i])
            != lens_key(#[trigger] all[j]) by {
            let k = lemma_lens_dep(rest, cache, workspace, i);
            if j < before.len() {
                assert(lens_key(before[i]) != lens_key(before[j]));
            } else {
                assert(deps[k].context != deps[deps.len() - 1].context || deps[k].name
                    != deps[deps.len() - 1].name);
            }
        }
    }
}

/// Whether no two blocks have the same number.
pub open spec fn ids_differ(blocks: Map<BlockKey, BlockView>) -> bool {
    forall|a: BlockKey, b: BlockKey|
        #[trigger] blocks.contains_key(a) && #[trigger] blocks.contains_key(b) && a != b
            ==> blocks[a].id != blocks[b].id
}

/// No block is drawn anew twice, and none that is drawn anew goes, if the numbers of the
/// blocks differ.
pub proof fn law_redrawn_once(existing: Map<BlockKey, BlockView>, desired: Seq<DesiredView>)
    requires
        ids_differ(existing),
    ensures
        ({
            let m = matching(existing, desired);
            &&& forall|i: int, j: int|
                0 <= i < j < m.replace.len() ==> (#[trigger] m.replace[i]).0 != (
                #[trigger] m.replace[j]).0
            &&& forall|i: int|
                0 <= i < m.replace.len() ==> !has_id(m.unclaimed, (#[trigger] m.replace[i]).0)
        }),
    decreases desired.len(),
{
    lemma_unclaimed(existing, desired);
    if desired.len() > 0 {
        let rest = desired.drop_last();
        law_redrawn_once(existing, rest);
        lemma_unclaimed(existing, rest);
        let before = matching(existing, rest);
        let m = matching(existing, desired);
        let key = lens_key(desired.last());
        if before.unclaimed.contains_key(key) {
            let id = before.unclaimed[key].id;
            assert(has_id(before.unclaimed, id));
            assert forall|i: int| 0 <= i < m.replace.len() implies !has_id(
                m.unclaimed,
                (#[trigger] m.replace[i]).0,
            ) by {
                let x = m.replace[i].0;
                if has_id(m.unclaimed, x) {
                    let other = choose|other: BlockKey|
                        #[trigger] m.unclaimed.contains_key(other) && m.unclaimed[other].id == x;
                    assert(before.unclaimed.contains_key(other));
                    assert(has_id(before.unclaimed, x));
                    if i < before.replace.len() {
                        assert(m.replace[i] == before.replace[i]);
                    } else {
                        assert(existing.contains_key(other) && existing.contains_key(key));
                    }
                }
            }
            assert forall|i: int, j: int| 0 <= i < j < m.replace.len() implies (
            #[trigger] m.replace[i]).0 != (#[trigger] m.replace[j]).0 by {
                assert(m.replace[i] == before.replace[i]);
                assert(!has_id(before.unclaimed, before.replace[i].0));
            }
        }
    }
}

proof fn lemma_unclaimed(existing: Map<BlockKey, BlockView>, desired: Seq<DesiredView>)
    ensures
        forall|key: BlockKey| #[trigger]
            matching(existing, desired).unclaimed.contains_key(key) ==> existing.contains_key(key)
                && matching(existing, desired).unclaimed[key] == existing[key],
    decreases desired.len(),
{
    if desired.len() > 0 {
        lemma_unclaimed(existing, desired.drop_last());
        let before = matching(existing, desired.drop_last()).unclaimed;
        let after = matching(existing, desired).unclaimed;
        assert forall|key: BlockKey| #[trigger] after.contains_key(key) implies
            existing.contains_key(key) && after[key] == existing[key] by {
            assert(before.contains_key(key));
        }
    }
}

/// What has come of some calls after parsing, with an editor that updates its lenses at
/// once where it is told to, and otherwise after the delay unless it is called again
/// before: whether the first lenses have been placed, when the refresh that waits is due,
/// and when the lenses were updated. Times are in milliseconds.
#[verifier::ext_equal]
pub struct Timeline {
    pub initialized: bool,
    pub due: Option<int>,
    pub updates: Seq<int>,
}

/// The refresh that waits has happened if it was due by the given time.
pub open spec fn passed(line: Timeline, time: int) -> Timeline {
    match line.due {
        Some(due) => if due <= time {
            Timeline { due: None, updates: line.updates.push(due), ..line }
        } else {
            line
        },
        None => line,
    }
}

/// What a call for a lens file at the given time comes to.
pub open spec fn called(line: Timeline, time: int) -> Timeline {
    let now = passed(line, time);
    match refresh_for(now.initialized, true) {
        Refresh::Now => Timeline { initialized: true, updates: now.updates.push(time), ..now },
        Refresh::Later => Timeline { due: Some(time + DEBOUNCE_MS), ..now },
        Refresh::Clear => now,
    }
}

/// What calls at the given times come to.
pub open spec fn timeline(calls: Seq<int>) -> Timeline
    decreases calls.len(),
{
    if calls.len() == 0 {
        Timeline { initialized: false, due: None, updates: seq![] }
    } else {
        called(timeline(calls.drop_last()), calls.last())
    }
}

/// Whether each call comes less than the delay after the one before.
pub open spec fn in_quick_succession(calls: Seq<int>) -> bool {
    forall|i: int, j: int|
        0 <= i && j == i + 1 && j < calls.len() ==> #[trigger] calls[i] <= #[trigger] calls[j]
            && calls[j] < calls[i] + DEBOUNCE_MS
}

proof fn lemma_timeline(calls: Seq<int>)
    requires
        calls.len() > 0,
        in_quick_succession(calls),
    ensures
        timeline(calls) == (Timeline {
            initialized: true,
            due: if calls.len() > 1 {
                Some(calls.last() + DEBOUNCE_MS)
            } else {
                None
            },
            updates: seq![calls[0]],
        }),
    decreases calls.len(),
{
    let rest = calls.drop_last();
    if calls.len() == 1 {
        assert(rest =~= seq![]);
        reveal_with_fuel(timeline, 2);
        assert(timeline(calls).updates =~= seq![calls[0]]);
    } else {
        assert forall|i: int, j: int| 0 <= i && j == i + 1 && j < rest.len() implies #[trigger]
            rest[i] <= #[trigger] rest[j] && rest[j] < rest[i] + DEBOUNCE_MS by {
            assert(calls[i] <= calls[j]);
        }
        lemma_timeline(rest);
        assert(rest.last() == calls[calls.len() - 2]);
        assert(calls[calls.len() - 2] <= calls[calls.len() - 1]);
    }
}

/// The first refresh of a lens file is at once. Further ones that come less than the
/// delay after one another make for one update, the delay after the last of them.
pub proof fn law_debounced(calls: Seq<int>, end: int)
    requires
        calls.len() > 0,
        in_quick_succession(calls),
        end >= calls.last() + DEBOUNCE_MS,
    ensures
        timeline(calls).initialized,
        timeline(calls).updates == seq![calls[0]],
        passed(timeline(calls), end).due is None,
        passed(timeline(calls), end).updates == if calls.len() > 1 {
            seq![calls[0], calls.last() + DEBOUNCE_MS]
        } else {
            seq![calls[0]]
        },
{
    lemma_timeline(calls);
    let after = passed(timeline(calls), end);
    if calls.len() > 1 {
        assert(after.updates =~= seq![calls[0], calls.last() + DEBOUNCE_MS]);
    }
}

} // verus!
