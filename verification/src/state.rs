//! The state of a reverse search.

use crate::entries::{entry_models, EntryModel, HistoryEntry, ReverseSearchEntry};
use crate::footer::{
    bold_span, coloured, cyan_span, dim_span, dimmed, line_content, line_is_plain, line_of, plain,
    plain_span, red_span, Foreground, SpanStyle, StyledText,
};
use crate::pattern::{
    build_regex, built_regex, describe_error, error_text, find_first, first_match,
};
use crate::thread_id::ThreadId;
use ratatui::text::{Line, Span};
use regex_lite::Regex;
use std::ops::Range;
use vstd::prelude::*;
use vstd::utf8::{encode_utf8, is_char_boundary};

verus! {

/// An entry in which the query was found, and where in its text, in bytes.
#[derive(Debug, PartialEq, Eq)]
pub struct SearchMatch {
    pub entry_index: usize,
    pub range: Range<usize>,
}

/// The entry and the bytes of a match.
#[verifier::ext_equal]
pub struct MatchModel {
    pub entry_index: int,
    pub start: int,
    pub end: int,
}

impl View for SearchMatch {
    type V = MatchModel;

    open spec fn view(&self) -> MatchModel {
        MatchModel {
            entry_index: self.entry_index as int,
            start: self.range.start as int,
            end: self.range.end as int,
        }
    }
}

/// The matches that a list holds.
pub open spec fn match_models(matches: Seq<SearchMatch>) -> Seq<MatchModel> {
    matches.map_values(|search_match: SearchMatch| search_match@)
}

/// A search that is going on.
#[derive(Debug)]
pub struct ActiveReverseSearch {
    pub thread_id: ThreadId,
    pub request_id: u64,
    pub original_draft: HistoryEntry,
    pub query: String,
    pub entries: Option<Vec<ReverseSearchEntry>>,
    pub filtered_matches: Vec<SearchMatch>,
    pub selected_match: usize,
    pub pending_cycle_backwards: usize,
    pub load_error: Option<String>,
    pub regex_error: Option<String>,
}

/// The text that an optional string holds.
pub open spec fn optional_text(text: Option<String>) -> Option<Seq<char>> {
    match text {
        Some(text) => Some(text@),
        None => None,
    }
}

/// The prompts that an optional list holds.
pub open spec fn optional_entries(entries: Option<Vec<ReverseSearchEntry>>) -> Option<
    Seq<EntryModel>,
> {
    match entries {
        Some(entries) => Some(entry_models(entries@)),
        None => None,
    }
}

/// A search that is going on, as plain values.
#[verifier::ext_equal]
pub struct SearchModel {
    pub thread_id: ThreadId,
    pub request_id: u64,
    pub draft: Seq<char>,
    pub query: Seq<char>,
    pub entries: Option<Seq<EntryModel>>,
    pub matches: Seq<MatchModel>,
    pub selected: int,
    pub pending: int,
    pub load_error: Option<Seq<char>>,
    pub regex_error: Option<Seq<char>>,
}

impl View for ActiveReverseSearch {
    type V = SearchModel;

    open spec fn view(&self) -> SearchModel {
        SearchModel {
            thread_id: self.thread_id,
            request_id: self.request_id,
            draft: self.original_draft@,
            query: self.query@,
            entries: optional_entries(self.entries),
            matches: match_models(self.filtered_matches@),
            selected: self.selected_match as int,
            pending: self.pending_cycle_backwards as int,
            load_error: optional_text(self.load_error),
            regex_error: optional_text(self.regex_error),
        }
    }
}

/// What a search of the entries gives: for each entry the bytes of its first match, if it has one;
/// or, where the query is no regular expression, why it is none.
pub open spec fn search(query: Seq<char>, entries: Seq<EntryModel>) -> Result<
    Seq<Option<(usize, usize)>>,
    Seq<char>,
> {
    match built_regex(query) {
        Ok(regex) => Ok(
            Seq::new(entries.len(), |i: int| first_match(regex, entries[i].text)),
        ),
        Err(error) => Err(error_text(error)),
    }
}

/// The matches among what was found in the entries, in the order of the entries.
pub open spec fn hits(found: Seq<Option<(usize, usize)>>) -> Seq<MatchModel>
    decreases found.len(),
{
    if found.len() == 0 {
        Seq::empty()
    } else {
        match found.last() {
            Some((start, end)) => hits(found.drop_last()).push(
                MatchModel {
                    entry_index: found.len() - 1,
                    start: start as int,
                    end: end as int,
                },
            ),
            None => hits(found.drop_last()),
        }
    }
}

impl SearchModel {
    /// A search that has just begun.
    pub open spec fn begun(thread_id: ThreadId, request_id: u64, draft: Seq<char>) -> SearchModel {
        SearchModel {
            thread_id,
            request_id,
            draft,
            query: Seq::empty(),
            entries: None,
            matches: Seq::empty(),
            selected: 0,
            pending: 0,
            load_error: None,
            regex_error: None,
        }
    }

    /// The search without matches.
    pub open spec fn cleared(self) -> SearchModel {
        SearchModel { matches: Seq::empty(), selected: 0, regex_error: None, ..self }
    }

    /// The search after its entries were searched. The cycles that were asked for before pick the
    /// match, counted round; they are then spent.
    pub open spec fn searched(
        self,
        outcome: Result<Seq<Option<(usize, usize)>>, Seq<char>>,
    ) -> SearchModel {
        match outcome {
            Ok(found) => SearchModel {
                matches: hits(found),
                selected: if hits(found).len() > 0 {
                    self.pending % (hits(found).len() as int)
                } else {
                    0
                },
                pending: 0,
                regex_error: None,
                ..self
            },
            Err(error) => SearchModel { regex_error: Some(error), ..self.cleared() },
        }
    }

    /// There is something to search for and something to search.
    pub open spec fn is_searchable(self) -> bool {
        self.query.len() > 0 && self.entries is Some
    }

    /// The search with its matches brought up to date.
    pub open spec fn refreshed(self) -> SearchModel {
        if self.is_searchable() {
            self.searched(search(self.query, self.entries->0))
        } else {
            self.cleared()
        }
    }

    /// The search with another query.
    pub open spec fn with_query(self, query: Seq<char>) -> SearchModel {
        SearchModel { query, ..self }.refreshed()
    }

    /// The search with the last character of its query taken off.
    pub open spec fn erased(self) -> SearchModel {
        self.with_query(
            if self.query.len() > 0 {
                self.query.drop_last()
            } else {
                self.query
            },
        )
    }

    /// The search after the entries were loaded, or could not be.
    pub open spec fn loaded(self, result: Result<Seq<EntryModel>, Seq<char>>) -> SearchModel {
        match result {
            Ok(entries) => SearchModel {
                entries: Some(entries),
                load_error: None,
                ..self
            }.refreshed(),
            Err(error) => SearchModel {
                entries: Some(Seq::empty()),
                load_error: Some(error),
                ..self
            }.refreshed(),
        }
    }

    /// The search after one step back. With no match, and while the entries are still being loaded,
    /// the step is kept for later.
    pub open spec fn cycled(self) -> SearchModel {
        if self.matches.len() > 0 {
            SearchModel {
                selected: (self.selected + 1) % (self.matches.len() as int),
                ..self
            }
        } else if self.entries is None && self.pending < usize::MAX {
            SearchModel { pending: self.pending + 1, ..self }
        } else {
            self
        }
    }

    /// The entry that is selected.
    pub open spec fn current_match(self) -> Option<EntryModel> {
        if self.query.len() > 0 && self.entries is Some && 0 <= self.selected < self.matches.len()
            && 0 <= self.matches[self.selected].entry_index < (self.entries->0).len() {
            Some((self.entries->0)[self.matches[self.selected].entry_index])
        } else {
            None
        }
    }

    /// The bytes of the match that is selected.
    pub open spec fn current_range(self) -> Option<(int, int)> {
        if 0 <= self.selected < self.matches.len() {
            Some((self.matches[self.selected].start, self.matches[self.selected].end))
        } else {
            None
        }
    }

    /// The text that is shown: that of the selected entry, else the draft.
    pub open spec fn shown(self) -> Seq<char> {
        match self.current_match() {
            Some(entry) => entry.text,
            None => self.draft,
        }
    }

    /// Something is wrong: the entries could not be loaded, the query is no regular expression, or
    /// nothing matches it.
    pub open spec fn is_failing(self) -> bool {
        ||| self.load_error is Some
        ||| self.regex_error is Some
        ||| self.query.len() > 0 && self.entries is Some && self.matches.len() == 0
    }

    /// The footer.
    pub open spec fn footer(self) -> Seq<StyledText> {
        let failing = if self.is_failing() {
            seq![StyledText { text: "failing "@, style: coloured(Foreground::Red) }]
        } else {
            Seq::empty()
        };
        let label = seq![
            StyledText {
                text: "bck-i-search"@,
                style: SpanStyle { bold: true, ..coloured(Foreground::Cyan) },
            },
            StyledText { text: ": "@, style: plain() },
            StyledText { text: self.query, style: plain() },
            StyledText { text: "_"@, style: dimmed() },
        ];
        let loading = if self.entries is None {
            seq![StyledText { text: " (loading...)"@, style: dimmed() }]
        } else {
            Seq::empty()
        };
        failing + label + loading
    }

    /// A match lies in the text of its entry, and starts and ends between characters.
    pub open spec fn match_is_in_text(self, search_match: MatchModel) -> bool {
        let bytes = encode_utf8((self.entries->0)[search_match.entry_index].text);
        &&& self.entries is Some
        &&& 0 <= search_match.entry_index < (self.entries->0).len()
        &&& 0 <= search_match.start <= search_match.end <= bytes.len()
        &&& is_char_boundary(bytes, search_match.start)
        &&& is_char_boundary(bytes, search_match.end)
    }

    /// What holds of every search: the matches and the error are those of the query and the entries,
    /// one of the matches is selected if there are any, steps are kept for later only where the
    /// entries could not be searched, and after a failed load there are no entries.
    pub open spec fn wf(self) -> bool {
        &&& self.matches == self.refreshed().matches
        &&& self.regex_error == self.refreshed().regex_error
        &&& 0 <= self.selected
        &&& self.selected < self.matches.len() || self.selected == 0
        &&& 0 <= self.pending <= usize::MAX
        &&& self.is_searchable() && self.regex_error is None ==> self.pending == 0
        &&& self.load_error is Some ==> self.entries == Some(Seq::<EntryModel>::empty())
        &&& forall|i: int|
            0 <= i < self.matches.len() ==> self.match_is_in_text(#[trigger] self.matches[i])
    }
}

/// What a search gave, as plain values.
pub open spec fn outcome_model(outcome: Result<Vec<Option<(usize, usize)>>, String>) -> Result<
    Seq<Option<(usize, usize)>>,
    Seq<char>,
> {
    match outcome {
        Ok(found) => Ok(found@),
        Err(error) => Err(error@),
    }
}

/// What was found in an entry lies in its text, and starts and ends between characters.
pub open spec fn found_is_in_text(found: Option<(usize, usize)>, text: Seq<char>) -> bool {
    found matches Some((start, end)) ==> {
        &&& start <= end <= encode_utf8(text).len()
        &&& is_char_boundary(encode_utf8(text), start as int)
        &&& is_char_boundary(encode_utf8(text), end as int)
    }
}

/// Searches each of the entries for the query.
pub fn search_entries(query: &str, entries: &Vec<ReverseSearchEntry>) -> (outcome: Result<
    Vec<Option<(usize, usize)>>,
    String,
>)
    ensures
        outcome_model(outcome) == search(query@, entry_models(entries@)),
        match built_regex(query@) {
            Ok(regex) => outcome matches Ok(found) && found@.len() == entries@.len() && forall|i: int|
                0 <= i < entries@.len() ==> #[trigger] found@[i] == first_match(
                    regex,
                    entries@[i].text@,
                ),
            Err(error) => outcome matches Err(text) && text@ == error_text(error),
        },
        outcome matches Ok(found) ==> found@.len() == entries@.len() && forall|i: int|
            0 <= i < entries@.len() ==> found_is_in_text(#[trigger] found@[i], entries@[i].text@),
{
    let regex: Regex = match build_regex(query) {
        Ok(regex) => regex,
        Err(error) => {
            return Err(describe_error(&error));
        },
    };
    let mut found: Vec<Option<(usize, usize)>> = Vec::new();
    let mut index: usize = 0;
    while index < entries.len()
        invariant
            index <= entries@.len(),
            found@.len() == index,
            forall|i: int|
                0 <= i < index ==> {
                    &&& #[trigger] found@[i] == first_match(regex, entries@[i].text@)
                    &&& found_is_in_text(found@[i], entries@[i].text@)
                },
        decreases entries@.len() - index,
    {
        found.push(find_first(&regex, entries[index].text.as_str()));
        index = index + 1;
    }
    assert(search(query@, entry_models(entries@))->Ok_0 =~= found@);
    Ok(found)
}

/// The matches among what was found in the entries.
fn collect_hits(found: &Vec<Option<(usize, usize)>>) -> (matches: Vec<SearchMatch>)
    ensures
        match_models(matches@) == hits(found@),
{
    let mut matches: Vec<SearchMatch> = Vec::new();
    let mut index: usize = 0;
    while index < found.len()
        invariant
            index <= found@.len(),
            match_models(matches@) == hits(found@.take(index as int)),
        decreases found@.len() - index,
    {
        let ghost before = matches@;
        proof {
            assert(found@.take(index + 1).drop_last() =~= found@.take(index as int));
        }
        match found[index] {
            Some((start, end)) => {
                matches.push(SearchMatch { entry_index: index, range: start..end });
                assert(match_models(matches@) =~= match_models(before).push(
                    matches@.last()@,
                ));
            },
            None => {},
        }
        index = index + 1;
    }
    assert(found@.take(index as int) =~= found@);
    matches
}

impl ActiveReverseSearch {
    /// Takes in what a search of the entries gave.
    pub fn apply_search(&mut self, outcome: Result<Vec<Option<(usize, usize)>>, String>)
        ensures
            final(self)@ == old(self)@.searched(outcome_model(outcome)),
            match outcome {
                Ok(found) => final(self)@ == old(self)@.searched(Ok(found@)),
                Err(error) => final(self)@ == old(self)@.searched(Err(error@)),
            },
    {
        self.selected_match = 0;
        match outcome {
            Ok(found) => {
                self.regex_error = None;
                self.filtered_matches = collect_hits(&found);
                if !self.filtered_matches.is_empty() {
                    self.selected_match = self.pending_cycle_backwards
                        % self.filtered_matches.len();
                }
                self.pending_cycle_backwards = 0;
            },
            Err(error) => {
                self.regex_error = Some(error);
                self.filtered_matches.clear();
                assert(match_models(self.filtered_matches@) =~= Seq::empty());
            },
        }
    }
}

/// Each match stands for what was found in the entry that it names, the matches are in the order of
/// the entries, and no entry in which something was found is left out.
pub proof fn lemma_hits(found: Seq<Option<(usize, usize)>>)
    ensures
        forall|i: int|
            0 <= i < hits(found).len() ==> {
                let hit = #[trigger] hits(found)[i];
                &&& 0 <= hit.entry_index < found.len()
                &&& 0 <= hit.start <= usize::MAX
                &&& 0 <= hit.end <= usize::MAX
                &&& found[hit.entry_index] == Some((hit.start as usize, hit.end as usize))
            },
        forall|i: int, j: int|
            0 <= i < j < hits(found).len() ==> #[trigger] hits(found)[i].entry_index
                < #[trigger] hits(found)[j].entry_index,
        forall|k: int|
            0 <= k < found.len() ==> {
                (#[trigger] found[k]) matches Some((start, end)) ==> hits(found).contains(
                    MatchModel { entry_index: k, start: start as int, end: end as int },
                )
            },
    decreases found.len(),
{
    if found.len() > 0 {
        let rest = found.drop_last();
        lemma_hits(rest);
        assert forall|k: int| 0 <= k < found.len() implies {
            (#[trigger] found[k]) matches Some((start, end)) ==> hits(found).contains(
                MatchModel { entry_index: k, start: start as int, end: end as int },
            )
        } by {
            if let Some((start, end)) = found[k] {
                let hit = MatchModel { entry_index: k, start: start as int, end: end as int };
                if k < rest.len() {
                    assert(rest[k] == found[k]);
                    let i = choose|i: int| 0 <= i < hits(rest).len() && hits(rest)[i] == hit;
                    assert(hits(found)[i] == hit);
                } else {
                    assert(hits(found).last() == hit);
                }
            }
        }
        assert forall|i: int| 0 <= i < hits(found).len() implies {
            let hit = #[trigger] hits(found)[i];
            &&& 0 <= hit.entry_index < found.len()
            &&& 0 <= hit.start <= usize::MAX
            &&& 0 <= hit.end <= usize::MAX
            &&& found[hit.entry_index] == Some((hit.start as usize, hit.end as usize))
        } by {
            if i < hits(rest).len() {
                assert(hits(found)[i] == hits(rest)[i]);
                assert(rest[hits(rest)[i].entry_index] == found[hits(rest)[i].entry_index]);
            }
        }
    }
}

/// Brings the matches up to date with the query and the entries.
fn refresh_matches(active: &mut ActiveReverseSearch)
    ensures
        final(active)@ == old(active)@.refreshed(),
        forall|i: int|
            0 <= i < final(active)@.matches.len() ==> final(active)@.match_is_in_text(
                #[trigger] final(active)@.matches[i],
            ),
{
    active.selected_match = 0;
    active.regex_error = None;
    active.filtered_matches.clear();
    assert(match_models(active.filtered_matches@) =~= Seq::empty());
    if active.query.as_str().is_empty() {
        return ;
    }
    let outcome: Result<Vec<Option<(usize, usize)>>, String> = match active.entries.as_ref() {
        Some(entries) => search_entries(active.query.as_str(), entries),
        None => {
            return ;
        },
    };
    let ghost model = outcome_model(outcome);
    active.apply_search(outcome);
    proof {
        if model is Ok {
            let found = model->Ok_0;
            lemma_hits(found);
            assert forall|i: int| 0 <= i < active@.matches.len() implies active@.match_is_in_text(
                #[trigger] active@.matches[i],
            ) by {
                assert(active@.matches[i] == hits(found)[i]);
                assert(found_is_in_text(
                    found[active@.matches[i].entry_index],
                    (active@.entries->0)[active@.matches[i].entry_index].text,
                ));
            }
        }
    }
}

impl ActiveReverseSearch {
    /// The entry that is selected.
    fn current_match(&self) -> (current: Option<&ReverseSearchEntry>)
        ensures
            match current {
                Some(entry) => self@.current_match() == Some(entry@),
                None => self@.current_match() is None,
            },
    {
        if self.query.as_str().is_empty() {
            return None;
        }
        let entries: &Vec<ReverseSearchEntry> = match self.entries.as_ref() {
            Some(entries) => entries,
            None => {
                return None;
            },
        };
        if self.selected_match >= self.filtered_matches.len() {
            return None;
        }
        let entry_index: usize = self.filtered_matches[self.selected_match].entry_index;
        if entry_index >= entries.len() {
            return None;
        }
        Some(&entries[entry_index])
    }

    /// The bytes of the match that is selected.
    fn current_match_range(&self) -> (range: Option<Range<usize>>)
        ensures
            match range {
                Some(range) => self@.current_range() == Some((range.start as int, range.end as int)),
                None => self@.current_range() is None,
            },
    {
        if self.selected_match >= self.filtered_matches.len() {
            return None;
        }
        let search_match: &SearchMatch = &self.filtered_matches[self.selected_match];
        Some(search_match.range.start..search_match.range.end)
    }

    /// Whether something is wrong.
    fn is_failing(&self) -> (failing: bool)
        ensures
            failing == self@.is_failing(),
    {
        self.load_error.is_some() || self.regex_error.is_some() || (!self.query.as_str().is_empty()
            && self.entries.is_some() && self.filtered_matches.is_empty())
    }
}

/// A reverse search: none, or the one that is going on.
#[derive(Debug)]
pub struct ReverseSearchState {
    active: Option<ActiveReverseSearch>,
}

impl ReverseSearchState {
    #[verifier::type_invariant]
    spec fn inv(self) -> bool {
        self.wf()
    }
}

impl View for ReverseSearchState {
    type V = Option<SearchModel>;

    closed spec fn view(&self) -> Option<SearchModel> {
        match self.active {
            Some(active) => Some(active@),
            None => None,
        }
    }
}

impl Default for ReverseSearchState {
    fn default() -> (state: Self)
        ensures
            state@ is None,
    {
        ReverseSearchState { active: None }
    }
}

/// The result of a load, as plain values.
pub open spec fn load_model(result: Result<Vec<ReverseSearchEntry>, String>) -> Result<
    Seq<EntryModel>,
    Seq<char>,
> {
    match result {
        Ok(entries) => Ok(entry_models(entries@)),
        Err(error) => Err(error@),
    }
}

impl ReverseSearchState {
    /// The search that is going on, if there is one, is as every search is.
    pub open spec fn wf(self) -> bool {
        self@ matches Some(search) ==> search.wf()
    }

    /// Takes the search that is going on out of the state.
    fn take_active(&mut self) -> (active: Option<ActiveReverseSearch>)
        ensures
            final(self)@ is None,
            match active {
                Some(active) => old(self)@ == Some(active@) && active@.wf(),
                None => old(self)@ is None,
            },
    {
        proof {
            use_type_invariant(&*self);
        }
        let mut active: Option<ActiveReverseSearch> = None;
        std::mem::swap(&mut active, &mut self.active);
        active
    }

    /// Whether a search is going on.
    pub fn is_active(&self) -> (active: bool)
        ensures
            active == (self@ is Some),
            self.wf(),
    {
        proof {
            use_type_invariant(self);
        }
        self.active.is_some()
    }

    /// Begins a search, in place of one that may be going on.
    pub fn begin(&mut self, thread_id: ThreadId, request_id: u64, original_draft: HistoryEntry)
        ensures
            final(self)@ == Some(SearchModel::begun(thread_id, request_id, original_draft@)),
            (final(self)@->0).draft == original_draft.text@,
            final(self).wf(),
    {
        let active: ActiveReverseSearch = ActiveReverseSearch {
            thread_id,
            request_id,
            original_draft,
            query: String::new(),
            entries: None,
            filtered_matches: Vec::new(),
            selected_match: 0,
            pending_cycle_backwards: 0,
            load_error: None,
            regex_error: None,
        };
        assert(active@ =~= SearchModel::begun(thread_id, request_id, original_draft@));
        self.active = Some(active);
    }

    /// The draft that was in the composer when the search began.
    pub fn original_draft(&self) -> (draft: Option<&HistoryEntry>)
        ensures
            match draft {
                Some(draft) => self@ is Some && draft@ == (self@->0).draft,
                None => self@ is None,
            },
    {
        match self.active.as_ref() {
            Some(active) => Some(&active.original_draft),
            None => None,
        }
    }

    /// Takes in the entries, or why they could not be loaded, if they are what the search that is
    /// going on has asked for; says whether they are.
    pub fn install_entries(
        &mut self,
        thread_id: ThreadId,
        request_id: u64,
        result: Result<Vec<ReverseSearchEntry>, String>,
    ) -> (installed: bool)
        ensures
            final(self).wf(),
            installed == (old(self)@ matches Some(search) && search.thread_id == thread_id
                && search.request_id == request_id),
            installed ==> final(self)@ == Some((old(self)@->0).loaded(load_model(result))),
            installed ==> match result {
                Ok(entries) => (final(self)@->0).entries == Some(entry_models(entries@)) && (
                final(self)@->0).load_error is None,
                Err(error) => (final(self)@->0).load_error == Some(error@),
            },
            !installed ==> final(self)@ == old(self)@,
    {
        let mut active: ActiveReverseSearch = match self.take_active() {
            Some(active) => active,
            None => {
                return false;
            },
        };
        if active.thread_id != thread_id || active.request_id != request_id {
            self.active = Some(active);
            return false;
        }
        match result {
            Ok(entries) => {
                active.entries = Some(entries);
                active.load_error = None;
            },
            Err(error) => {
                active.entries = Some(Vec::new());
                active.load_error = Some(error);
                assert(active@.entries->0 =~= Seq::empty());
            },
        }
        refresh_matches(&mut active);
        self.active = Some(active);
        true
    }

    /// Appends a character to the query.
    pub fn append_query_char(&mut self, ch: char)
        ensures
            final(self).wf(),
            final(self)@ == (match old(self)@ {
                Some(search) => Some(search.with_query(search.query.push(ch))),
                None => None,
            }),
    {
        if let Some(mut active) = self.take_active() {
            active.query.push(ch);
            refresh_matches(&mut active);
            self.active = Some(active);
        }
    }

    /// Appends a string to the query.
    pub fn append_query_str(&mut self, query: &str)
        ensures
            final(self).wf(),
            final(self)@ == (match old(self)@ {
                Some(search) => Some(search.with_query(search.query + query@)),
                None => None,
            }),
    {
        if let Some(mut active) = self.take_active() {
            active.query.push_str(query);
            refresh_matches(&mut active);
            self.active = Some(active);
        }
    }

    /// Takes the last character off the query.
    pub fn pop_query_char(&mut self)
        ensures
            final(self).wf(),
            final(self)@ == (match old(self)@ {
                Some(search) => Some(search.erased()),
                None => None,
            }),
    {
        if let Some(mut active) = self.take_active() {
            active.query.pop();
            refresh_matches(&mut active);
            self.active = Some(active);
        }
    }

    /// Goes one match back, round to the first after the last.
    pub fn cycle_backwards(&mut self)
        ensures
            final(self).wf(),
            final(self)@ == (match old(self)@ {
                Some(search) => Some(search.cycled()),
                None => None,
            }),
    {
        if let Some(mut active) = self.take_active() {
            let count: usize = active.filtered_matches.len();
            assert(active@.matches.len() == count);
            if count > 0 {
                active.selected_match = (active.selected_match + 1) % count;
            } else if active.entries.is_none() {
                active.pending_cycle_backwards = active.pending_cycle_backwards.saturating_add(1);
            }
            self.active = Some(active);
        }
    }

    /// What is to be shown in the composer: the selected entry, else the draft.
    pub fn display_entry(&self) -> (shown: Option<HistoryEntry>)
        ensures
            match shown {
                Some(shown) => self@ is Some && shown@ == (self@->0).shown() && shown.text@
                    == shown@,
                None => self@ is None,
            },
    {
        match self.active.as_ref() {
            Some(active) => Some(
                match active.current_match() {
                    Some(entry) => HistoryEntry::new(entry.text.clone()),
                    None => active.original_draft.clone(),
                },
            ),
            None => None,
        }
    }

    /// Where the query was found in the entry that is shown, in bytes.
    pub fn current_match_range(&self) -> (range: Option<Range<usize>>)
        ensures
            match range {
                Some(range) => self@ is Some && (self@->0).current_range() == Some(
                    (range.start as int, range.end as int),
                ),
                None => self@ matches Some(search) ==> search.current_range() is None,
            },
    {
        match self.active.as_ref() {
            Some(active) => active.current_match_range(),
            None => None,
        }
    }

    /// Ends the search with what it shows.
    pub fn accept(&mut self) -> (accepted: Option<HistoryEntry>)
        ensures
            final(self)@ is None,
            match accepted {
                Some(accepted) => old(self)@ is Some && accepted@ == (old(self)@->0).shown()
                    && accepted.text@ == accepted@,
                None => old(self)@ is None,
            },
    {
        match self.take_active() {
            Some(active) => Some(
                match active.current_match() {
                    Some(entry) => HistoryEntry::new(entry.text.clone()),
                    None => active.original_draft,
                },
            ),
            None => None,
        }
    }

    /// Ends the search with the draft that was in the composer when it began.
    pub fn cancel(&mut self) -> (draft: Option<HistoryEntry>)
        ensures
            final(self)@ is None,
            match draft {
                Some(draft) => old(self)@ is Some && draft@ == (old(self)@->0).draft && draft.text@
                    == draft@,
                None => old(self)@ is None,
            },
    {
        match self.take_active() {
            Some(active) => Some(active.original_draft),
            None => None,
        }
    }

    /// The footer line.
    pub fn footer_line(&self) -> (line: Option<Line<'static>>)
        ensures
            match line {
                Some(line) => self@ is Some && line_content(line) == (self@->0).footer()
                    && line_is_plain(line),
                None => self@ is None,
            },
    {
        let active: &ActiveReverseSearch = match self.active.as_ref() {
            Some(active) => active,
            None => {
                return None;
            },
        };
        let mut spans: Vec<Span<'static>> = Vec::new();
        if active.is_failing() {
            spans.push(red_span("failing "));
        }
        spans.push(bold_span(cyan_span("bck-i-search")));
        spans.push(plain_span(": ".to_string()));
        spans.push(plain_span(active.query.clone()));
        spans.push(dim_span("_"));
        if active.entries.is_none() {
            spans.push(dim_span(" (loading...)"));
        }
        let line: Line<'static> = line_of(spans);
        assert(line_content(line) =~= active@.footer());
        Some(line)
    }
}

} // verus!
