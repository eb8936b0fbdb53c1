use vstd::prelude::*;
use crate::store::HistoryStore;
use crate::store::ingest_spec;

verus! {

/// The time-gated ingestion rule: remembers the last-seen clipboard
/// text, the poll interval, and when the clipboard was last polled.
pub struct Poller {
    pub last_content: String,
    pub poll_interval_ms: u64,
    pub last_poll_ms: u64,
}

impl Poller {
    /// A poller that has not polled yet and has seen no text.
    pub fn new(poll_interval_ms: u64) -> (r: Self)
        ensures
            r.last_content@ == Seq::<char>::empty(),
            r.poll_interval_ms == poll_interval_ms,
            r.last_poll_ms == 0,
    {
        Poller { last_content: String::new(), poll_interval_ms, last_poll_ms: 0 }
    }

    /// Whether the elapsed time since the last poll exceeds the
    /// configured interval, so that the clipboard should be read again.
    pub fn due(&self, now_ms: u64) -> (r: bool)
        ensures
            r == (now_ms > self.last_poll_ms + self.poll_interval_ms),
    {
        if now_ms <= self.last_poll_ms {
            false
        } else {
            now_ms - self.last_poll_ms > self.poll_interval_ms
        }
    }

    /// Record the outcome of one clipboard poll at clock reading
    /// `now_ms`: a successful, non-empty reading that differs from the
    /// last-seen text becomes the last-seen text and is offered to the
    /// store, stamped with the whole-second clock reading `now_s`; any
    /// other outcome changes nothing but the poll time.
    pub fn observe(
        &mut self,
        store: &mut HistoryStore,
        reading: Option<String>,
        now_ms: u64,
        now_s: u64,
    )
        requires
            old(store).wf(),
        ensures
            final(store).wf(),
            final(store).capacity() == old(store).capacity(),
            final(self).poll_interval_ms == old(self).poll_interval_ms,
            final(self).last_poll_ms == now_ms,
            match reading {
                Some(text) => {
                    if text@.len() > 0 && text@ != old(self).last_content@ {
                        &&& final(self).last_content@ == text@
                        &&& final(store)@ == ingest_spec(
                            old(store)@,
                            text@,
                            now_s,
                            old(store).capacity(),
                        )
                    } else {
                        &&& final(self).last_content == old(self).last_content
                        &&& final(store)@ == old(store)@
                    }
                },
                None => {
                    &&& final(self).last_content == old(self).last_content
                    &&& final(store)@ == old(store)@
                },
            },
    {
        self.last_poll_ms = now_ms;
        match reading {
            Some(text) => {
                if !text.as_str().is_empty() && !(text == self.last_content) {
                    self.last_content = text.clone();
                    store.ingest_at(text, now_s);
                }
            },
            None => {},
        }
    }
}

} // verus!
