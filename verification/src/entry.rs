use vstd::prelude::*;
use crate::text::dec_digits;
use crate::text::dec_digits_exec;
use crate::text::string_from_chars;
use crate::text::chars_of;

verus! {

/// Mathematical model of one recorded clipboard snapshot.
pub ghost struct EntryModel {
    pub id: u64,
    pub content: Seq<char>,
    pub timestamp: u64,
    pub favorite: bool,
}

/// One recorded clipboard snapshot: captured text with its metadata.
pub struct ClipboardEntry {
    pub id: u64,
    pub content: String,
    pub timestamp: u64,
    pub favorite: bool,
}

impl View for ClipboardEntry {
    type V = EntryModel;

    open spec fn view(&self) -> EntryModel {
        EntryModel {
            id: self.id,
            content: self.content@,
            timestamp: self.timestamp,
            favorite: self.favorite,
        }
    }
}

/// The model of a freshly captured entry: id and timestamp are both the
/// clock reading at capture, and it starts out not a favorite.
pub open spec fn fresh_entry(content: Seq<char>, now: u64) -> EntryModel {
    EntryModel { id: now, content, timestamp: now, favorite: false }
}

impl ClipboardEntry {
    /// Build an entry captured at the given clock reading.
    pub fn new_at(content: String, now: u64) -> (r: Self)
        ensures
            r@ == fresh_entry(content@, now),
    {
        ClipboardEntry { id: now, content, timestamp: now, favorite: false }
    }

    /// Build an entry stamped with the current wall clock.
    pub fn new(content: String) -> (r: Self)
        ensures
            exists|now: u64| r@ == fresh_entry(content@, now),
    {
        let now = crate::clock::now_seconds();
        ClipboardEntry::new_at(content, now)
    }
}

/// The age display for a difference of `diff` whole seconds: seconds
/// below a minute, then minutes, hours, and days, by integer division.
pub open spec fn age_string(diff: u64) -> Seq<char> {
    if diff < 60 {
        dec_digits(diff as nat) + seq!['s', ' ', 'a', 'g', 'o']
    } else if diff < 3600 {
        dec_digits((diff / 60) as nat) + seq!['m', ' ', 'a', 'g', 'o']
    } else if diff < 86400 {
        dec_digits((diff / 3600) as nat) + seq!['h', ' ', 'a', 'g', 'o']
    } else {
        dec_digits((diff / 86400) as nat) + seq!['d', ' ', 'a', 'g', 'o']
    }
}

/// The age of a capture at clock reading `now`, in whole seconds; a
/// clock behind the capture reads as zero.
pub open spec fn age_seconds(timestamp: u64, now: u64) -> u64 {
    if now >= timestamp {
        (now - timestamp) as u64
    } else {
        0
    }
}

/// The preview of content for display: more than 50 characters is cut
/// to the first 47 plus an ellipsis marker.
pub open spec fn preview_spec(content: Seq<char>) -> Seq<char> {
    if content.len() > 50 {
        content.take(47) + seq!['.', '.', '.']
    } else {
        content
    }
}

/// The display line for an entry: the preview, then the age in
/// parentheses.
pub open spec fn display_text_spec(content: Seq<char>, age: Seq<char>) -> Seq<char> {
    preview_spec(content) + seq![' ', '('] + age + seq![')']
}

/// The truncated preview of a content string.
pub fn preview(content: &String) -> (r: String)
    ensures
        r@ == preview_spec(content@),
{
    let v = chars_of(content.as_str());
    if v.len() > 50 {
        let mut out: Vec<char> = Vec::new();
        let mut i: usize = 0;
        while i < 47
            invariant
                i <= 47,
                v@.len() > 50,
                out@ == v@.take(i as int),
            decreases 47 - i,
        {
            out.push(v[i]);
            proof {
                assert(out@ =~= v@.take(i + 1));
            }
            i = i + 1;
        }
        out.push('.');
        out.push('.');
        out.push('.');
        proof {
            assert(out@ =~= preview_spec(content@));
        }
        string_from_chars(&out)
    } else {
        content.clone()
    }
}

/// One display-ready row of the interface: what the presentation layer
/// needs to render and to submit intents for an entry.
pub struct EntryDisplayData {
    pub id: u64,
    pub content: String,
    pub is_selected: bool,
    pub is_favorite: bool,
    pub display_text: String,
}

impl ClipboardEntry {
    /// The relative age display of this entry at clock reading `now`.
    pub fn formatted_time_at(&self, now: u64) -> (r: String)
        ensures
            r@ == age_string(age_seconds(self.timestamp, now)),
    {
        let diff = if now >= self.timestamp {
            now - self.timestamp
        } else {
            0
        };
        let mut v: Vec<char>;
        if diff < 60 {
            v = dec_digits_exec(diff);
            v.push('s');
        } else if diff < 3600 {
            v = dec_digits_exec(diff / 60);
            v.push('m');
        } else if diff < 86400 {
            v = dec_digits_exec(diff / 3600);
            v.push('h');
        } else {
            v = dec_digits_exec(diff / 86400);
            v.push('d');
        }
        v.push(' ');
        v.push('a');
        v.push('g');
        v.push('o');
        proof {
            assert(v@ =~= age_string(diff));
        }
        string_from_chars(&v)
    }

    /// The relative age display of this entry against the current wall
    /// clock.
    pub fn formatted_time(&self) -> (r: String)
        ensures
            exists|diff: u64| r@ == age_string(diff),
    {
        let now = crate::clock::now_seconds();
        self.formatted_time_at(now)
    }

    /// The display row for this entry at clock reading `now`, given the
    /// currently selected identifier.
    pub fn display_data(&self, selected: Option<u64>, now: u64) -> (r: EntryDisplayData)
        ensures
            r.id == self.id,
            r.content@ == self.content@,
            r.is_favorite == self.favorite,
            r.is_selected == (selected == Some(self.id)),
            r.display_text@ == display_text_spec(
                self.content@,
                age_string(age_seconds(self.timestamp, now)),
            ),
    {
        let is_selected = match selected {
            Some(s) => s == self.id,
            None => false,
        };
        let pv = preview(&self.content);
        let age = self.formatted_time_at(now);
        let mut t = chars_of(pv.as_str());
        t.push(' ');
        t.push('(');
        let mut age_chars = chars_of(age.as_str());
        t.append(&mut age_chars);
        t.push(')');
        proof {
            assert(t@ =~= display_text_spec(
                self.content@,
                age_string(age_seconds(self.timestamp, now)),
            ));
        }
        EntryDisplayData {
            id: self.id,
            content: self.content.clone(),
            is_selected,
            is_favorite: self.favorite,
            display_text: string_from_chars(&t),
        }
    }
}

impl Clone for ClipboardEntry {
    fn clone(&self) -> (r: Self)
        ensures
            r@ == self@,
    {
        ClipboardEntry {
            id: self.id,
            content: self.content.clone(),
            timestamp: self.timestamp,
            favorite: self.favorite,
        }
    }
}

} // verus!
