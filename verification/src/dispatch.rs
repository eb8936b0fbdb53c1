use vstd::prelude::*;
use crate::entry::EntryModel;
use crate::store::HistoryStore;
use crate::store::toggle_spec;
use crate::store::delete_spec;

verus! {

/// A user intent collected during one interaction cycle and applied
/// only after the read-only pass over the store is done.
pub enum Action {
    /// Flip the favorite mark of the entry with this identifier.
    ToggleFavorite(u64),
    /// Remember this identifier as the selected entry and put the text
    /// on the OS clipboard.
    Select(u64, String),
    /// Put the text on the OS clipboard.
    Copy(String),
    /// Remove the entry with this identifier.
    Delete(u64),
}

/// What one action does to the store and the selection, and what it
/// asks to be written to the OS clipboard.
pub open spec fn apply_one(
    store: Seq<EntryModel>,
    selected: Option<u64>,
    action: Action,
) -> (Seq<EntryModel>, Option<u64>, Seq<Seq<char>>) {
    match action {
        Action::ToggleFavorite(id) => (toggle_spec(store, id), selected, Seq::empty()),
        Action::Select(id, content) => (store, Some(id), seq![content@]),
        Action::Copy(content) => (store, selected, seq![content@]),
        Action::Delete(id) => (delete_spec(store, id), selected, Seq::empty()),
    }
}

/// The effect of a whole queue of actions, applied in order; later
/// actions see the effects of earlier ones. The third component gathers
/// the clipboard writes the actions ask for, in order.
pub open spec fn apply_all(
    store: Seq<EntryModel>,
    selected: Option<u64>,
    actions: Seq<Action>,
) -> (Seq<EntryModel>, Option<u64>, Seq<Seq<char>>)
    decreases actions.len(),
{
    if actions.len() == 0 {
        (store, selected, Seq::empty())
    } else {
        let prev = apply_all(store, selected, actions.drop_last());
        let step = apply_one(prev.0, prev.1, actions.last());
        (step.0, step.1, prev.2 + step.2)
    }
}

/// The views of a sequence of clipboard writes.
pub open spec fn views_of(v: Seq<String>) -> Seq<Seq<char>> {
    v.map_values(|s: String| s@)
}

/// Apply one collected action to the store and the selection; the
/// result is the text the action asks to put on the OS clipboard, if
/// any.
pub fn apply_action(store: &mut HistoryStore, selected: &mut Option<u64>, action: Action) -> (r:
    Option<String>)
    requires
        old(store).wf(),
    ensures
        final(store).wf(),
        final(store).capacity() == old(store).capacity(),
        final(store)@ == apply_one(old(store)@, *old(selected), action).0,
        *final(selected) == apply_one(old(store)@, *old(selected), action).1,
        views_of(match r {
            Some(t) => seq![t],
            None => Seq::empty(),
        }) == apply_one(old(store)@, *old(selected), action).2,
{
    match action {
        Action::ToggleFavorite(id) => {
            store.toggle_favorite(id);
            None
        },
        Action::Select(id, content) => {
            *selected = Some(id);
            proof {
                assert(views_of(seq![content]) =~= seq![content@]);
            }
            Some(content)
        },
        Action::Copy(content) => {
            proof {
                assert(views_of(seq![content]) =~= seq![content@]);
            }
            Some(content)
        },
        Action::Delete(id) => {
            store.delete(id);
            None
        },
    }
}

/// Drain a whole queue of collected actions against the store, in
/// order; the result lists the clipboard writes the actions asked for,
/// in order, for the surroundings to perform.
pub fn apply_actions(store: &mut HistoryStore, selected: &mut Option<u64>, actions: Vec<Action>)
    -> (writes: Vec<String>)
    requires
        old(store).wf(),
    ensures
        final(store).wf(),
        final(store).capacity() == old(store).capacity(),
        final(store)@ == apply_all(old(store)@, *old(selected), actions@).0,
        *final(selected) == apply_all(old(store)@, *old(selected), actions@).1,
        views_of(writes@) == apply_all(old(store)@, *old(selected), actions@).2,
{
    let ghost a0 = actions@;
    let ghost st0 = store@;
    let ghost sel0 = *selected;
    let ghost cap0 = store.capacity();
    let mut actions = actions;
    let mut writes: Vec<String> = Vec::new();
    let mut k: usize = 0;
    let n = actions.len();
    proof {
        assert(views_of(writes@) =~= apply_all(st0, sel0, a0.take(0)).2);
    }
    while k < n
        invariant
            k <= n,
            n == a0.len(),
            actions@ == a0.skip(k as int),
            old(store).wf(),
            st0 == old(store)@,
            sel0 == *old(selected),
            cap0 == old(store).capacity(),
            store.wf(),
            store.capacity() == cap0,
            store@ == apply_all(st0, sel0, a0.take(k as int)).0,
            *selected == apply_all(st0, sel0, a0.take(k as int)).1,
            views_of(writes@) == apply_all(st0, sel0, a0.take(k as int)).2,
        decreases n - k,
    {
        let ghost writes0 = writes@;
        let a = actions.remove(0);
        proof {
            assert(a == a0[k as int]);
            assert(actions@ =~= a0.skip(k + 1));
        }
        let w = apply_action(store, selected, a);
        match w {
            Some(t) => {
                writes.push(t);
                proof {
                    assert(forall|i: int| 0 <= i < writes0.len() ==> writes@[i] == writes0[i]);
                    assert(forall|i: int|
                        0 <= i < writes0.len() ==> (#[trigger] views_of(writes@)[i]) == views_of(
                            writes0,
                        )[i]);
                }
            },
            None => {},
        }
        proof {
            let t1 = a0.take(k + 1);
            assert(t1.drop_last() =~= a0.take(k as int));
            assert(t1.last() == a0[k as int]);
            assert(views_of(writes@) =~= apply_all(st0, sel0, t1).2);
        }
        k = k + 1;
    }
    proof {
        assert(a0.take(a0.len() as int) =~= a0);
    }
    writes
}

} // verus!
