use vstd::prelude::*;
use crate::entry::ClipboardEntry;
use crate::entry::EntryModel;
use crate::entry::EntryDisplayData;
use crate::entry::display_text_spec;
use crate::entry::age_string;
use crate::entry::age_seconds;
use crate::store::HistoryStore;
use crate::store::models;
use crate::text::lower_of;
use crate::text::lowercase;
use crate::text::chars_of;
use crate::text::contains_sub;
use crate::text::contains_sub_exec;

verus! {

/// Whether an entry passes the filter: with the favorites-only flag it
/// must be a favorite, and with a non-empty query its lowercased
/// content must contain the lowercased query.
pub open spec fn keeps(e: EntryModel, query: Seq<char>, favorites_only: bool) -> bool {
    &&& (favorites_only ==> e.favorite)
    &&& (query.len() > 0 ==> contains_sub(lower_of(e.content), lower_of(query)))
}

/// The ordered subsequence of entries that pass the filter, store order
/// (newest-first) kept.
pub open spec fn filter_spec(
    s: Seq<EntryModel>,
    query: Seq<char>,
    favorites_only: bool,
) -> Seq<EntryModel>
    decreases s.len(),
{
    if s.len() == 0 {
        Seq::empty()
    } else if keeps(s.last(), query, favorites_only) {
        filter_spec(s.drop_last(), query, favorites_only).push(s.last())
    } else {
        filter_spec(s.drop_last(), query, favorites_only)
    }
}

/// The display-ready projection of the store: the entries that pass the
/// favorites-only flag and the case-insensitive search, order kept.
pub fn filtered_history(store: &HistoryStore, query: &String, favorites_only: bool) -> (r: Vec<
    ClipboardEntry,
>)
    ensures
        models(r@) == filter_spec(store@, query@, favorites_only),
{
    let query_lower = lowercase(query.as_str());
    let query_chars = chars_of(query_lower.as_str());
    let empty_query = query.as_str().is_empty();
    let n = store.len();
    let mut out: Vec<ClipboardEntry> = Vec::new();
    let mut i: usize = 0;
    proof {
        assert(models(out@) =~= filter_spec(store@.take(0), query@, favorites_only));
    }
    while i < n
        invariant
            i <= n,
            n == store@.len(),
            query_chars@ == lower_of(query@),
            empty_query == (query@.len() == 0),
            models(out@) == filter_spec(store@.take(i as int), query@, favorites_only),
        decreases n - i,
    {
        let ghost out0 = out@;
        let e = store.get(i);
        let mut keep_it = true;
        if favorites_only && !e.favorite {
            keep_it = false;
        }
        if keep_it && !empty_query {
            let low = lowercase(e.content.as_str());
            let low_chars = chars_of(low.as_str());
            keep_it = contains_sub_exec(&low_chars, &query_chars);
        }
        proof {
            assert(keep_it == keeps(store@[i as int], query@, favorites_only));
        }
        if keep_it {
            out.push(e);
            proof {
                assert(forall|a: int| 0 <= a < out0.len() ==> out@[a] == out0[a]);
                assert(forall|a: int|
                    0 <= a < out0.len() ==> (#[trigger] models(out@)[a]) == models(out0)[a]);
                assert(out@[out@.len() - 1]@ == store@[i as int]);
            }
        }
        proof {
            let t1 = store@.take(i + 1);
            assert(t1.drop_last() =~= store@.take(i as int));
            assert(t1.last() == store@[i as int]);
            if keeps(store@[i as int], query@, favorites_only) {
                assert(models(out@) =~= filter_spec(store@.take(i as int), query@, favorites_only)
                    .push(store@[i as int]));
            }
        }
        i = i + 1;
    }
    proof {
        assert(store@.take(store@.len() as int) =~= store@);
    }
    out
}

/// Whether a display row renders the given entry at clock reading
/// `now` under the given selection.
pub open spec fn row_shows(
    row: EntryDisplayData,
    e: EntryModel,
    selected: Option<u64>,
    now: u64,
) -> bool {
    &&& row.id == e.id
    &&& row.content@ == e.content
    &&& row.is_favorite == e.favorite
    &&& row.is_selected == (selected == Some(e.id))
    &&& row.display_text@ == display_text_spec(e.content, age_string(age_seconds(e.timestamp, now)))
}

/// The whole read-only pass of one render cycle: the filtered entries,
/// each turned into its display row.
pub fn render_rows(
    store: &HistoryStore,
    query: &String,
    favorites_only: bool,
    selected: Option<u64>,
    now: u64,
) -> (r: Vec<EntryDisplayData>)
    ensures
        r@.len() == filter_spec(store@, query@, favorites_only).len(),
        forall|i: int|
            0 <= i < r@.len() ==> row_shows(
                #[trigger] r@[i],
                filter_spec(store@, query@, favorites_only)[i],
                selected,
                now,
            ),
{
    let hits = filtered_history(store, query, favorites_only);
    let mut rows: Vec<EntryDisplayData> = Vec::new();
    let mut i: usize = 0;
    while i < hits.len()
        invariant
            i <= hits.len(),
            models(hits@) == filter_spec(store@, query@, favorites_only),
            rows@.len() == i,
            forall|k: int|
                0 <= k < i ==> row_shows(
                    #[trigger] rows@[k],
                    filter_spec(store@, query@, favorites_only)[k],
                    selected,
                    now,
                ),
        decreases hits.len() - i,
    {
        let ghost rows0 = rows@;
        let d = hits[i].display_data(selected, now);
        rows.push(d);
        proof {
            assert(forall|k: int| 0 <= k < rows0.len() ==> rows@[k] == rows0[k]);
            assert(hits@[i as int]@ == models(hits@)[i as int]);
            assert(row_shows(
                rows@[i as int],
                filter_spec(store@, query@, favorites_only)[i as int],
                selected,
                now,
            ));
        }
        i = i + 1;
    }
    rows
}

/// Every entry the filter returns passes it: with the favorites-only
/// flag set it is a favorite, and with a non-empty query its lowercased
/// content contains the lowercased query.
pub proof fn lemma_filter_only_matches(s: Seq<EntryModel>, query: Seq<char>, favorites_only: bool)
    ensures
        forall|i: int|
            0 <= i < filter_spec(s, query, favorites_only).len() ==> keeps(
                #[trigger] filter_spec(s, query, favorites_only)[i],
                query,
                favorites_only,
            ),
    decreases s.len(),
{
    if s.len() > 0 {
        lemma_filter_only_matches(s.drop_last(), query, favorites_only);
        let sub = filter_spec(s.drop_last(), query, favorites_only);
        assert forall|i: int| 0 <= i < filter_spec(s, query, favorites_only).len() implies keeps(
            #[trigger] filter_spec(s, query, favorites_only)[i],
            query,
            favorites_only,
        ) by {
            if keeps(s.last(), query, favorites_only) {
                assert(filter_spec(s, query, favorites_only) == sub.push(s.last()));
                if i < sub.len() {
                    assert(filter_spec(s, query, favorites_only)[i] == sub[i]);
                } else {
                    assert(filter_spec(s, query, favorites_only)[i] == s.last());
                }
            } else {
                assert(filter_spec(s, query, favorites_only)[i] == sub[i]);
            }
        }
    }
}

} // verus!
