//! What is searched and what is shown.

use crate::thread_id::ThreadId;
use vstd::prelude::*;

verus! {

/// A prompt that the search can find, and the thread that it was sent in.
#[derive(Debug, PartialEq, Eq)]
pub struct ReverseSearchEntry {
    pub thread_id: ThreadId,
    pub text: String,
}

/// The thread and the text of a prompt.
#[verifier::ext_equal]
pub struct EntryModel {
    pub thread_id: ThreadId,
    pub text: Seq<char>,
}

impl View for ReverseSearchEntry {
    type V = EntryModel;

    open spec fn view(&self) -> EntryModel {
        EntryModel { thread_id: self.thread_id, text: self.text@ }
    }
}

impl Clone for ReverseSearchEntry {
    fn clone(&self) -> (copy: Self)
        ensures
            copy == *self,
    {
        ReverseSearchEntry { thread_id: self.thread_id, text: self.text.clone() }
    }
}

/// The prompts that a list holds.
pub open spec fn entry_models(entries: Seq<ReverseSearchEntry>) -> Seq<EntryModel> {
    entries.map_values(|entry: ReverseSearchEntry| entry@)
}

/// A text of the composer: a draft, or a prompt taken from the history.
#[derive(Debug, PartialEq, Eq)]
pub struct HistoryEntry {
    pub text: String,
}

impl View for HistoryEntry {
    type V = Seq<char>;

    open spec fn view(&self) -> Seq<char> {
        self.text@
    }
}

impl Clone for HistoryEntry {
    fn clone(&self) -> (copy: Self)
        ensures
            copy == *self,
    {
        HistoryEntry { text: self.text.clone() }
    }
}

impl HistoryEntry {
    pub fn new(text: String) -> (entry: HistoryEntry)
        ensures
            entry@ == text@,
    {
        HistoryEntry { text }
    }
}

/// A list of prompts is taken for what it holds: the thread and the whole text of each, in order.
pub proof fn law_entries_are_taken_as_they_are(entries: Seq<ReverseSearchEntry>, i: int)
    requires
        0 <= i < entries.len(),
    ensures
        entry_models(entries).len() == entries.len(),
        entry_models(entries)[i].thread_id == entries[i].thread_id,
        entry_models(entries)[i].text == entries[i].text@,
{
}

/// A text of the composer is taken for the whole of its text.
pub proof fn law_a_history_entry_is_its_text(entry: HistoryEntry)
    ensures
        entry@ == entry.text@,
{
}

} // verus!
