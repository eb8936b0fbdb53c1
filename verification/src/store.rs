use vstd::prelude::*;
use vstd::pervasive::VecAdditionalExecFns;
use crate::entry::ClipboardEntry;
use crate::entry::EntryModel;
use crate::entry::fresh_entry;

verus! {

/// Capacity bound of the history store.
pub const MAX_HISTORY: usize = 1000;

/// The models of a sequence of entries.
pub open spec fn models(v: Seq<ClipboardEntry>) -> Seq<EntryModel> {
    v.map_values(|e: ClipboardEntry| e@)
}

/// Whether some entry of `s` holds exactly the text `c`.
pub open spec fn contains_content(s: Seq<EntryModel>, c: Seq<char>) -> bool {
    exists|i: int| 0 <= i < s.len() && (#[trigger] s[i]).content == c
}

/// Whether some entry of `s` is not marked favorite.
pub open spec fn has_non_favorite(s: Seq<EntryModel>) -> bool {
    exists|i: int| 0 <= i < s.len() && !(#[trigger] s[i]).favorite
}

/// Index of the oldest non-favorite entry: the store is ordered
/// newest-first, so this is the non-favorite index closest to the back.
pub open spec fn last_non_favorite(s: Seq<EntryModel>) -> int
    decreases s.len(),
{
    if s.len() == 0 {
        0
    } else if !s[s.len() - 1].favorite {
        s.len() - 1
    } else {
        last_non_favorite(s.drop_last())
    }
}

/// The index evicted when the store is full: the oldest non-favorite
/// entry, or the oldest entry outright when every entry is a favorite.
pub open spec fn evict_index(s: Seq<EntryModel>) -> int {
    if has_non_favorite(s) {
        last_non_favorite(s)
    } else {
        s.len() - 1
    }
}

/// The store after one eviction.
pub open spec fn evict_one(s: Seq<EntryModel>) -> Seq<EntryModel> {
    s.remove(evict_index(s))
}

/// The store after offering the text `c` at clock reading `now`, under
/// capacity bound `cap`: a no-op for empty or already-present text;
/// otherwise one entry is evicted if the store is full, and a fresh
/// entry is put at the front.
pub open spec fn ingest_spec(s: Seq<EntryModel>, c: Seq<char>, now: u64, cap: int) -> Seq<
    EntryModel,
> {
    if c.len() == 0 || contains_content(s, c) {
        s
    } else {
        let base = if s.len() >= cap {
            evict_one(s)
        } else {
            s
        };
        seq![fresh_entry(c, now)] + base
    }
}

/// Whether some entry of `s` has identifier `id`.
pub open spec fn has_id(s: Seq<EntryModel>, id: u64) -> bool {
    exists|i: int| 0 <= i < s.len() && (#[trigger] s[i]).id == id
}

/// First index whose entry has identifier `id` (meaningful only when
/// `has_id` holds).
pub open spec fn find_id(s: Seq<EntryModel>, id: u64) -> int
    decreases s.len(),
{
    if s.len() == 0 {
        0
    } else if s[0].id == id {
        0
    } else {
        1 + find_id(s.drop_first(), id)
    }
}

/// The entry with its favorite mark flipped.
pub open spec fn flipped(e: EntryModel) -> EntryModel {
    EntryModel { id: e.id, content: e.content, timestamp: e.timestamp, favorite: !e.favorite }
}

/// The store after toggling the favorite mark of the first entry with
/// identifier `id`; a no-op when no entry has it.
pub open spec fn toggle_spec(s: Seq<EntryModel>, id: u64) -> Seq<EntryModel> {
    if has_id(s, id) {
        s.update(find_id(s, id), flipped(s[find_id(s, id)]))
    } else {
        s
    }
}

/// The store after deleting the first entry with identifier `id`; a
/// no-op when no entry has it.
pub open spec fn delete_spec(s: Seq<EntryModel>, id: u64) -> Seq<EntryModel> {
    if has_id(s, id) {
        s.remove(find_id(s, id))
    } else {
        s
    }
}

/// The store after clearing every entry that is not a favorite, order
/// kept.
pub open spec fn keep_favorites(s: Seq<EntryModel>) -> Seq<EntryModel>
    decreases s.len(),
{
    if s.len() == 0 {
        Seq::empty()
    } else if s.last().favorite {
        keep_favorites(s.drop_last()).push(s.last())
    } else {
        keep_favorites(s.drop_last())
    }
}

/// The invariants the store keeps of its entry sequence: no two entries
/// hold the same text, and no entry holds empty text.
pub open spec fn distinct_contents(s: Seq<EntryModel>) -> bool {
    forall|i: int, j: int|
        0 <= i < j < s.len() ==> (#[trigger] s[i]).content != (#[trigger] s[j]).content
}

/// Whether every content of `s` is non-empty.
pub open spec fn nonempty_contents(s: Seq<EntryModel>) -> bool {
    forall|i: int| 0 <= i < s.len() ==> (#[trigger] s[i]).content.len() > 0
}

// ---------------------------------------------------------------------------
// Characterization lemmas for the spec functions above
// ---------------------------------------------------------------------------

/// When a non-favorite exists, `last_non_favorite` is the largest index
/// holding one.
pub proof fn lemma_last_non_favorite(s: Seq<EntryModel>)
    requires
        has_non_favorite(s),
    ensures
        0 <= last_non_favorite(s) < s.len(),
        !s[last_non_favorite(s)].favorite,
        forall|j: int| last_non_favorite(s) < j < s.len() ==> (#[trigger] s[j]).favorite,
    decreases s.len(),
{
    if !s[s.len() - 1].favorite {
    } else {
        let sub = s.drop_last();
        assert(has_non_favorite(sub)) by {
            let i = choose|i: int| 0 <= i < s.len() && !(#[trigger] s[i]).favorite;
            assert(i < s.len() - 1);
            assert(sub[i] == s[i]);
        }
        lemma_last_non_favorite(sub);
        assert(s[last_non_favorite(s)] == sub[last_non_favorite(sub)]);
        assert forall|j: int| last_non_favorite(s) < j < s.len() implies (
        #[trigger] s[j]).favorite by {
            if j < s.len() - 1 {
                assert(sub[j] == s[j]);
                assert(sub[j].favorite);
            }
        }
    }
}

/// The evicted index is always inside a non-empty store.
pub proof fn lemma_evict_index_in_range(s: Seq<EntryModel>)
    requires
        s.len() > 0,
    ensures
        0 <= evict_index(s) < s.len(),
{
    if has_non_favorite(s) {
        lemma_last_non_favorite(s);
    }
}

/// When an entry has identifier `id`, `find_id` is the smallest index
/// holding one.
pub proof fn lemma_find_id(s: Seq<EntryModel>, id: u64)
    requires
        has_id(s, id),
    ensures
        0 <= find_id(s, id) < s.len(),
        s[find_id(s, id)].id == id,
        forall|j: int| 0 <= j < find_id(s, id) ==> (#[trigger] s[j]).id != id,
    decreases s.len(),
{
    if s[0].id == id {
    } else {
        let sub = s.drop_first();
        assert(has_id(sub, id)) by {
            let i = choose|i: int| 0 <= i < s.len() && (#[trigger] s[i]).id == id;
            assert(sub[i - 1] == s[i]);
        }
        lemma_find_id(sub, id);
        assert(s[find_id(s, id)] == sub[find_id(sub, id)]);
        assert(forall|j: int| 1 <= j < find_id(s, id) ==> (#[trigger] s[j]) == sub[j - 1]);
    }
}

// ---------------------------------------------------------------------------
// Laws of the store
// ---------------------------------------------------------------------------

/// Ingestion never grows the store past its capacity bound: whatever
/// text is offered to a store inside the bound, the result stays inside
/// it.
pub proof fn lemma_ingest_bounded(s: Seq<EntryModel>, c: Seq<char>, now: u64, cap: int)
    requires
        cap >= 1,
        s.len() <= cap,
    ensures
        ingest_spec(s, c, now, cap).len() <= cap,
{
    if !(c.len() == 0 || contains_content(s, c)) {
        if s.len() >= cap {
            lemma_evict_index_in_range(s);
        }
    }
}

/// Offering text the store already holds leaves it unchanged: same
/// length, same order, same entries.
pub proof fn lemma_ingest_duplicate_noop(s: Seq<EntryModel>, c: Seq<char>, now: u64, cap: int)
    requires
        contains_content(s, c),
    ensures
        ingest_spec(s, c, now, cap) == s,
{
}

/// When a full store holds no favorites, ingesting fresh non-empty text
/// evicts exactly the oldest entry and keeps the store full.
pub proof fn lemma_ingest_evicts_oldest(s: Seq<EntryModel>, c: Seq<char>, now: u64, cap: int)
    requires
        cap >= 1,
        s.len() == cap,
        forall|i: int| 0 <= i < s.len() ==> !(#[trigger] s[i]).favorite,
        c.len() > 0,
        !contains_content(s, c),
    ensures
        ingest_spec(s, c, now, cap) == seq![fresh_entry(c, now)] + s.drop_last(),
        ingest_spec(s, c, now, cap).len() == cap,
{
    assert(!s[s.len() - 1].favorite);
    assert(has_non_favorite(s));
    assert(evict_one(s) =~= s.drop_last());
}

/// When every entry of a full store is a favorite, ingesting fresh
/// non-empty text still evicts the oldest entry, favorite or not.
pub proof fn lemma_ingest_full_of_favorites(s: Seq<EntryModel>, c: Seq<char>, now: u64, cap: int)
    requires
        cap >= 1,
        s.len() == cap,
        forall|i: int| 0 <= i < s.len() ==> (#[trigger] s[i]).favorite,
        c.len() > 0,
        !contains_content(s, c),
    ensures
        ingest_spec(s, c, now, cap) == seq![fresh_entry(c, now)] + s.drop_last(),
{
    assert(!has_non_favorite(s));
    assert(evict_one(s) =~= s.drop_last());
}

/// Toggling the same identifier twice returns the store to its original
/// state, and toggling an identifier no entry has is a no-op.
pub proof fn lemma_toggle_twice(s: Seq<EntryModel>, id: u64)
    ensures
        toggle_spec(toggle_spec(s, id), id) == s,
        !has_id(s, id) ==> toggle_spec(s, id) == s,
{
    if has_id(s, id) {
        lemma_find_id(s, id);
        let k = find_id(s, id);
        let s1 = s.update(k, flipped(s[k]));
        assert(s1[k].id == id);
        assert(has_id(s1, id));
        lemma_find_id(s1, id);
        let k1 = find_id(s1, id);
        if k1 < k {
            assert(s1[k1] == s[k1]);
            assert(s[k1].id != id);
        }
        if k < k1 {
            assert(s1[k].id != id);
        }
        assert(k1 == k);
        assert(flipped(flipped(s[k])) == s[k]);
        assert(toggle_spec(s1, id) =~= s);
    }
}

// ---------------------------------------------------------------------------
// The store itself
// ---------------------------------------------------------------------------

/// The bounded, ordered, deduplicated collection of entries,
/// newest-first.
pub struct HistoryStore {
    entries: Vec<ClipboardEntry>,
    capacity: usize,
}

impl View for HistoryStore {
    type V = Seq<EntryModel>;

    closed spec fn view(&self) -> Seq<EntryModel> {
        models(self.entries@)
    }
}

impl HistoryStore {
    /// The capacity bound this store was made with.
    pub closed spec fn capacity(&self) -> int {
        self.capacity as int
    }

    /// Well-formedness: the capacity is positive, the store is inside
    /// its bound, and contents are distinct and non-empty.
    pub open spec fn wf(&self) -> bool {
        &&& self.capacity() >= 1
        &&& self@.len() <= self.capacity()
        &&& distinct_contents(self@)
        &&& nonempty_contents(self@)
    }

    /// An empty store with the default capacity bound.
    pub fn new() -> (r: Self)
        ensures
            r@ == Seq::<EntryModel>::empty(),
            r.capacity() == MAX_HISTORY as int,
            r.wf(),
    {
        let r = HistoryStore { entries: Vec::new(), capacity: MAX_HISTORY };
        proof {
            assert(r@ =~= Seq::<EntryModel>::empty());
        }
        r
    }

    /// An empty store with the given capacity bound.
    pub fn with_capacity(cap: usize) -> (r: Self)
        requires
            cap >= 1,
        ensures
            r@ == Seq::<EntryModel>::empty(),
            r.capacity() == cap as int,
            r.wf(),
    {
        let r = HistoryStore { entries: Vec::new(), capacity: cap };
        proof {
            assert(r@ =~= Seq::<EntryModel>::empty());
        }
        r
    }

    /// Read access to the entries, newest-first.
    pub fn entries(&self) -> (r: &Vec<ClipboardEntry>)
        ensures
            models(r@) == self@,
    {
        &self.entries
    }

    /// A store with the default capacity bound over entries already
    /// known to satisfy the invariants.
    pub fn from_entries(entries: Vec<ClipboardEntry>) -> (r: Self)
        requires
            models(entries@).len() <= MAX_HISTORY,
            distinct_contents(models(entries@)),
            nonempty_contents(models(entries@)),
        ensures
            r@ == models(entries@),
            r.capacity() == MAX_HISTORY as int,
            r.wf(),
    {
        HistoryStore { entries, capacity: MAX_HISTORY }
    }

    /// How many entries the store holds.
    pub fn len(&self) -> (n: usize)
        ensures
            n == self@.len(),
    {
        self.entries.len()
    }

    /// A copy of the entry at the given position, newest first.
    pub fn get(&self, i: usize) -> (r: ClipboardEntry)
        requires
            i < self@.len(),
        ensures
            r@ == self@[i as int],
    {
        self.entries[i].clone()
    }

    /// Whether some entry holds exactly the given text.
    pub fn contains_text(&self, text: &String) -> (r: bool)
        ensures
            r == contains_content(self@, text@),
    {
        let mut i: usize = 0;
        while i < self.entries.len()
            invariant
                i <= self.entries.len(),
                forall|j: int| 0 <= j < i ==> (#[trigger] self@[j]).content != text@,
            decreases self.entries.len() - i,
        {
            if self.entries[i].content == *text {
                assert(self@[i as int].content == text@);
                return true;
            }
            i = i + 1;
        }
        false
    }

    /// The index the eviction policy picks; the store must be non-empty.
    fn pick_evict_index(&self) -> (k: usize)
        requires
            self@.len() > 0,
        ensures
            k as int == evict_index(self@),
            0 <= k < self@.len(),
    {
        let n = self.entries.len();
        let mut i: usize = n;
        while i > 0
            invariant
                i <= n,
                n == self@.len(),
                forall|j: int| i <= j < n ==> (#[trigger] self@[j]).favorite,
            decreases i,
        {
            i = i - 1;
            if !self.entries[i].favorite {
                proof {
                    assert(!self@[i as int].favorite);
                    assert(has_non_favorite(self@));
                    lemma_last_non_favorite(self@);
                    let k = last_non_favorite(self@);
                    if k < i as int {
                        assert(!self@[i as int].favorite);
                    }
                    if k > i as int {
                        assert(self@[k].favorite);
                    }
                    assert(k == i as int);
                }
                return i;
            }
        }
        proof {
            assert(forall|j: int| 0 <= j < n ==> (#[trigger] self@[j]).favorite);
            assert(!has_non_favorite(self@));
        }
        n - 1
    }

    /// Offer text to the store at the given clock reading: dedupe,
    /// evict if full, insert at the front.
    pub fn ingest_at(&mut self, content: String, now: u64)
        requires
            old(self).wf(),
        ensures
            final(self).wf(),
            final(self).capacity() == old(self).capacity(),
            final(self)@ == ingest_spec(old(self)@, content@, now, old(self).capacity()),
    {
        if content.as_str().is_empty() {
            return;
        }
        if self.contains_text(&content) {
            return;
        }
        let ghost s0 = self@;
        if self.entries.len() >= self.capacity {
            let k = self.pick_evict_index();
            self.entries.remove(k);
            proof {
                assert(forall|i: int| 0 <= i < k ==> (#[trigger] self@[i]) == s0[i]);
                assert(forall|i: int|
                    k <= i < self@.len() ==> (#[trigger] self@[i]) == s0[i + 1]);
                assert(self@ =~= evict_one(s0));
                assert(distinct_contents(self@));
                assert(nonempty_contents(self@));
                assert(!contains_content(self@, content@)) by {
                    if contains_content(self@, content@) {
                        let i = choose|i: int|
                            0 <= i < self@.len() && (#[trigger] self@[i]).content == content@;
                        if i < k as int {
                            assert(s0[i].content == content@);
                        } else {
                            assert(s0[i + 1].content == content@);
                        }
                        assert(contains_content(s0, content@));
                    }
                }
            }
        }
        let ghost s1 = self@;
        let e = ClipboardEntry::new_at(content, now);
        self.entries.insert(0, e);
        proof {
            assert(forall|i: int| 1 <= i < self@.len() ==> (#[trigger] self@[i]) == s1[i - 1]);
            assert(self@[0] == e@);
            assert(self@ =~= seq![e@] + s1);
            assert(distinct_contents(self@)) by {
                assert(forall|j: int|
                    1 <= j < self@.len() ==> (#[trigger] self@[j]).content != content@) by {
                    assert(forall|l: int|
                        0 <= l < s1.len() ==> (#[trigger] s1[l]).content != content@);
                }
            }
            assert(nonempty_contents(self@));
        }
    }

    /// Offer text stamped with the current wall clock.
    pub fn ingest(&mut self, content: String)
        requires
            old(self).wf(),
        ensures
            final(self).wf(),
            final(self).capacity() == old(self).capacity(),
            exists|now: u64|
                final(self)@ == ingest_spec(old(self)@, content@, now, old(self).capacity()),
    {
        let now = crate::clock::now_seconds();
        self.ingest_at(content, now);
    }

    /// Flip the favorite mark of the entry with the given identifier, if
    /// one is present.
    pub fn toggle_favorite(&mut self, id: u64)
        requires
            old(self).wf(),
        ensures
            final(self).wf(),
            final(self).capacity() == old(self).capacity(),
            final(self)@ == toggle_spec(old(self)@, id),
    {
        let ghost s0 = self@;
        let mut i: usize = 0;
        while i < self.entries.len()
            invariant
                i <= self.entries.len(),
                self.entries@ == old(self).entries@,
                self.capacity == old(self).capacity,
                self@ == s0,
                s0 == old(self)@,
                old(self).wf(),
                forall|j: int| 0 <= j < i ==> (#[trigger] s0[j]).id != id,
            decreases self.entries.len() - i,
        {
            if self.entries[i].id == id {
                let e = &self.entries[i];
                let flipped_entry = ClipboardEntry {
                    id: e.id,
                    content: e.content.clone(),
                    timestamp: e.timestamp,
                    favorite: !e.favorite,
                };
                proof {
                    assert(s0[i as int].id == id);
                    assert(has_id(s0, id));
                    lemma_find_id(s0, id);
                    let k = find_id(s0, id);
                    if k < i as int {
                        assert(s0[k].id != id);
                    }
                    if k > i as int {
                        assert(s0[i as int].id != id);
                    }
                    assert(k == i as int);
                    assert(flipped_entry@ == flipped(s0[i as int]));
                }
                self.entries.set(i, flipped_entry);
                proof {
                    assert(forall|j: int|
                        0 <= j < self@.len() && j != i ==> (#[trigger] self@[j]) == s0[j]);
                    assert(self@[i as int] == flipped(s0[i as int]));
                    assert(self@ =~= toggle_spec(s0, id));
                    assert(forall|j: int|
                        0 <= j < self@.len() ==> (#[trigger] self@[j]).content == s0[j].content);
                    assert forall|a: int, b: int| 0 <= a < b < self@.len() implies (
                    #[trigger] self@[a]).content != (#[trigger] self@[b]).content by {
                        assert(self@[a].content == s0[a].content);
                        assert(self@[b].content == s0[b].content);
                        assert(s0[a].content != s0[b].content);
                    }
                    assert(distinct_contents(self@));
                    assert forall|a: int| 0 <= a < self@.len() implies (
                    #[trigger] self@[a]).content.len() > 0 by {
                        assert(self@[a].content == s0[a].content);
                        assert(s0[a].content.len() > 0);
                    }
                    assert(nonempty_contents(self@));
                }
                return;
            }
            i = i + 1;
        }
        proof {
            assert(!has_id(s0, id));
        }
    }

    /// Remove the entry with the given identifier, if one is present.
    pub fn delete(&mut self, id: u64)
        requires
            old(self).wf(),
        ensures
            final(self).wf(),
            final(self).capacity() == old(self).capacity(),
            final(self)@ == delete_spec(old(self)@, id),
    {
        let ghost s0 = self@;
        let mut i: usize = 0;
        while i < self.entries.len()
            invariant
                i <= self.entries.len(),
                self.entries@ == old(self).entries@,
                self.capacity == old(self).capacity,
                self@ == s0,
                s0 == old(self)@,
                old(self).wf(),
                forall|j: int| 0 <= j < i ==> (#[trigger] s0[j]).id != id,
            decreases self.entries.len() - i,
        {
            if self.entries[i].id == id {
                proof {
                    assert(s0[i as int].id == id);
                    assert(has_id(s0, id));
                    lemma_find_id(s0, id);
                    let k = find_id(s0, id);
                    if k < i as int {
                        assert(s0[k].id != id);
                    }
                    if k > i as int {
                        assert(s0[i as int].id != id);
                    }
                    assert(k == i as int);
                }
                self.entries.remove(i);
                proof {
                    assert(forall|j: int| 0 <= j < i ==> (#[trigger] self@[j]) == s0[j]);
                    assert(forall|j: int|
                        i <= j < self@.len() ==> (#[trigger] self@[j]) == s0[j + 1]);
                    assert(self@ =~= delete_spec(s0, id));
                    assert(distinct_contents(self@));
                    assert(nonempty_contents(self@));
                }
                return;
            }
            i = i + 1;
        }
        proof {
            assert(!has_id(s0, id));
        }
    }

    /// Empty the store.
    pub fn clear_all(&mut self)
        requires
            old(self).wf(),
        ensures
            final(self).wf(),
            final(self).capacity() == old(self).capacity(),
            final(self)@ == Seq::<EntryModel>::empty(),
    {
        self.entries.clear();
        proof {
            assert(self@ =~= Seq::<EntryModel>::empty());
        }
    }

    /// Retain only the favorited entries, order kept.
    pub fn clear_non_favorites(&mut self)
        requires
            old(self).wf(),
        ensures
            final(self).wf(),
            final(self).capacity() == old(self).capacity(),
            final(self)@ == keep_favorites(old(self)@),
    {
        let ghost s0 = self@;
        let mut kept: Vec<ClipboardEntry> = Vec::new();
        let mut i: usize = 0;
        proof {
            assert(models(kept@) =~= keep_favorites(s0.take(0)));
        }
        while i < self.entries.len()
            invariant
                i <= self.entries.len(),
                self.entries@ == old(self).entries@,
                self.capacity == old(self).capacity,
                self@ == s0,
                s0 == old(self)@,
                distinct_contents(s0),
                nonempty_contents(s0),
                kept@.len() <= i,
                models(kept@) == keep_favorites(s0.take(i as int)),
                forall|a: int|
                    0 <= a < kept@.len() ==> exists|j: int|
                        0 <= j < i && (#[trigger] kept@[a])@ == s0[j],
                distinct_contents(models(kept@)),
                nonempty_contents(models(kept@)),
            decreases self.entries.len() - i,
        {
            let ghost kept0 = kept@;
            if self.entries[i].favorite {
                kept.push(self.entries[i].clone());
                proof {
                    assert(kept@[kept@.len() - 1]@ == s0[i as int]);
                    assert(forall|a: int| 0 <= a < kept0.len() ==> kept@[a] == kept0[a]);
                    assert(forall|a: int|
                        0 <= a < kept0.len() ==> (#[trigger] models(kept@)[a]) == models(
                            kept0,
                        )[a]);
                    assert forall|a: int| 0 <= a < kept0.len() implies (
                    #[trigger] models(kept@)[a]).content != s0[i as int].content by {
                        assert(kept0[a] == kept@[a]);
                        let j = choose|j: int| 0 <= j < i && (#[trigger] kept0[a])@ == s0[j];
                        assert(s0[j].content != s0[i as int].content);
                    }
                    assert(distinct_contents(models(kept@)));
                }
            }
            proof {
                let t1 = s0.take(i + 1);
                assert(t1.drop_last() =~= s0.take(i as int));
                assert(t1.last() == s0[i as int]);
                if s0[i as int].favorite {
                    assert(models(kept@) =~= keep_favorites(s0.take(i as int)).push(
                        s0[i as int],
                    ));
                } else {
                    assert(models(kept@) =~= keep_favorites(s0.take(i as int)));
                }
            }
            i = i + 1;
        }
        proof {
            assert(s0.take(s0.len() as int) =~= s0);
        }
        let ghost kept_final = models(kept@);
        self.entries = kept;
        proof {
            assert(self@ == kept_final);
        }
    }
}

} // verus!
