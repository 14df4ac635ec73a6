//! What holds of every reverse search.

use crate::entries::{EntryModel, ReverseSearchEntry};
use crate::footer::{Foreground, SpanStyle, StyledText};
use crate::pattern::{built_regex, error_text, first_match};
use crate::state::{
    hits, lemma_hits, load_model, outcome_model, search, ActiveReverseSearch, MatchModel,
    SearchModel,
};
use crate::thread_id::ThreadId;
use vstd::prelude::*;
use vstd::utf8::{encode_utf8, is_char_boundary};

verus! {

/// Something that can happen to a search while it goes on.
pub enum Step {
    AppendChar(char),
    AppendStr(Seq<char>),
    PopChar,
    CycleBackwards,
    InstallEntries(Result<Seq<EntryModel>, Seq<char>>),
}

/// The search after a step.
pub open spec fn after_step(m: SearchModel, step: Step) -> SearchModel {
    match step {
        Step::AppendChar(c) => m.with_query(m.query.push(c)),
        Step::AppendStr(s) => m.with_query(m.query + s),
        Step::PopChar => m.erased(),
        Step::CycleBackwards => m.cycled(),
        Step::InstallEntries(result) => m.loaded(result),
    }
}

/// The search after some steps.
pub open spec fn after_steps(m: SearchModel, steps: Seq<Step>) -> SearchModel
    decreases steps.len(),
{
    if steps.len() == 0 {
        m
    } else {
        after_step(after_steps(m, steps.drop_last()), steps.last())
    }
}

/// The search after `n` steps back.
pub open spec fn cycled_times(m: SearchModel, n: nat) -> SearchModel
    decreases n,
{
    if n == 0 {
        m
    } else {
        cycled_times(m, (n - 1) as nat).cycled()
    }
}

/// The search after some characters were appended to its query one by one.
pub open spec fn typed(m: SearchModel, s: Seq<char>) -> SearchModel
    decreases s.len(),
{
    if s.len() == 0 {
        m
    } else {
        after_step(typed(m, s.drop_last()), Step::AppendChar(s.last()))
    }
}

/// The text of a footer.
pub open spec fn footer_text(pieces: Seq<StyledText>) -> Seq<char>
    decreases pieces.len(),
{
    if pieces.len() == 0 {
        Seq::empty()
    } else {
        footer_text(pieces.drop_last()) + pieces.last().text
    }
}

/// Whatever happens during a search, canceling it gives back the draft with which it began; and the
/// search stays that of the same thread and the same request.
pub proof fn law_the_draft_is_kept(
    thread_id: ThreadId,
    request_id: u64,
    draft: Seq<char>,
    steps: Seq<Step>,
)
    ensures
        after_steps(SearchModel::begun(thread_id, request_id, draft), steps).draft == draft,
        after_steps(SearchModel::begun(thread_id, request_id, draft), steps).thread_id == thread_id,
        after_steps(SearchModel::begun(thread_id, request_id, draft), steps).request_id
            == request_id,
    decreases steps.len(),
{
    if steps.len() > 0 {
        law_the_draft_is_kept(thread_id, request_id, draft, steps.drop_last());
    }
}

/// Neither loading the entries nor going back changes the query, and nothing but loading changes the
/// entries.
pub proof fn law_the_query_is_changed_only_by_typing(
    m: SearchModel,
    query: Seq<char>,
    result: Result<Seq<EntryModel>, Seq<char>>,
)
    ensures
        m.loaded(result).query == m.query,
        m.cycled().query == m.query,
        m.with_query(query).query == query,
        m.with_query(query).entries == m.entries,
        m.cycled().entries == m.entries,
        m.loaded(result).entries is Some,
{
}

/// With an empty query nothing is selected, the draft stays visible, and nothing but a failed load
/// is reported as a failure.
pub proof fn law_empty_query_shows_the_draft(m: SearchModel)
    requires
        m.wf(),
        m.query.len() == 0,
    ensures
        m.shown() == m.draft,
        m.current_match() is None,
        m.current_range() is None,
        m.is_failing() <==> m.load_error is Some,
{
}

/// While the entries are being loaded the draft stays visible and nothing is reported as a failure.
pub proof fn law_loading_shows_the_draft(m: SearchModel)
    requires
        m.wf(),
        m.entries is None,
    ensures
        m.shown() == m.draft,
        m.current_range() is None,
        !m.is_failing(),
{
}

/// A query that is no regular expression is reported as a failure once there are entries, and the
/// draft is shown.
pub proof fn law_invalid_query_is_failing(m: SearchModel)
    requires
        m.wf(),
        m.is_searchable(),
        built_regex(m.query) is Err,
    ensures
        m.is_failing(),
        m.shown() == m.draft,
        m.current_range() is None,
{
}

/// A search of which some entry matches the query shows an entry, and is not failing.
pub proof fn law_a_match_is_shown(m: SearchModel)
    requires
        m.wf(),
        m.matches.len() > 0,
    ensures
        m.current_match() is Some,
        !m.is_failing(),
        ({
            let (start, end) = m.current_range()->0;
            let bytes = encode_utf8(m.shown());
            &&& m.current_range() is Some
            &&& 0 <= start <= end <= bytes.len()
            &&& is_char_boundary(bytes, start)
            &&& is_char_boundary(bytes, end)
        }),
{
    assert(m.match_is_in_text(m.matches[m.selected]));
    assert(m.is_searchable());
}

/// The matches are in the order of the entries, no entry is among them twice, and they are the
/// entries in which the query was found.
pub proof fn law_matches_are_the_entries_that_match(m: SearchModel)
    requires
        m.wf(),
        m.is_searchable(),
        m.regex_error is None,
    ensures
        forall|i: int, j: int|
            0 <= i < j < m.matches.len() ==> #[trigger] m.matches[i].entry_index
                < #[trigger] m.matches[j].entry_index,
        forall|k: int|
            0 <= k < (m.entries->0).len() ==> {
                let found = #[trigger] search(m.query, m.entries->0)->Ok_0[k];
                found matches Some((start, end)) ==> m.matches.contains(
                    MatchModel { entry_index: k, start: start as int, end: end as int },
                )
            },
        forall|i: int|
            0 <= i < m.matches.len() ==> {
                let k = (#[trigger] m.matches[i]).entry_index;
                search(m.query, m.entries->0)->Ok_0[k] == Some(
                    (m.matches[i].start as usize, m.matches[i].end as usize),
                )
            },
{
    let found = search(m.query, m.entries->0)->Ok_0;
    lemma_hits(found);
}

/// A search of the entries for a regular expression gives, for every entry and whichever thread it is
/// of, the first match in its text; where the query is none, it says why.
pub proof fn law_every_entry_is_searched(query: Seq<char>, entries: Seq<EntryModel>)
    ensures
        match built_regex(query) {
            Ok(regex) => search(query, entries) matches Ok(found) && found.len() == entries.len()
                && forall|k: int|
                0 <= k < entries.len() ==> #[trigger] found[k] == first_match(
                    regex,
                    entries[k].text,
                ),
            Err(error) => search(query, entries) == Err::<
                Seq<Option<(usize, usize)>>,
                Seq<char>,
            >(error_text(error)),
        },
{
}

/// What a search found is what the matches are: one for each entry in which something was found, with
/// the bytes that were found, in the order of the entries. The steps back that were kept select
/// the match, counted round, and are spent. A search that could not be made leaves its error, no
/// match, and the steps. Nothing else changes.
pub proof fn law_what_was_found_becomes_the_matches(
    m: SearchModel,
    found: Seq<Option<(usize, usize)>>,
    error: Seq<char>,
)
    ensures
        ({
            let after = m.searched(Ok(found));
            &&& after == (SearchModel {
                matches: after.matches,
                selected: after.selected,
                pending: 0,
                regex_error: None,
                ..m
            })
            &&& forall|i: int, j: int|
                0 <= i < j < after.matches.len() ==> #[trigger] after.matches[i].entry_index
                    < #[trigger] after.matches[j].entry_index
            &&& forall|i: int|
                0 <= i < after.matches.len() ==> {
                    let hit = #[trigger] after.matches[i];
                    &&& 0 <= hit.entry_index < found.len()
                    &&& found[hit.entry_index] matches Some((start, end)) && hit.start == start
                        && hit.end == end
                }
            &&& forall|k: int|
                0 <= k < found.len() && (#[trigger] found[k]) is Some ==> exists|i: int|
                    0 <= i < after.matches.len() && (#[trigger] after.matches[i]).entry_index == k
            &&& after.matches.len() == 0 ==> after.selected == 0
            &&& after.matches.len() > 0 ==> after.selected == m.pending % (
            after.matches.len() as int)
        }),
        m.searched(Err(error)) == (SearchModel {
            matches: Seq::empty(),
            selected: 0,
            regex_error: Some(error),
            ..m
        }),
{
    lemma_hits(found);
    let after = m.searched(Ok(found));
    assert forall|k: int| 0 <= k < found.len() && (#[trigger] found[k]) is Some implies exists|
        i: int,
    |
        0 <= i < after.matches.len() && (#[trigger] after.matches[i]).entry_index == k by {
        let (start, end) = found[k]->0;
        let hit = MatchModel { entry_index: k, start: start as int, end: end as int };
        assert(hits(found).contains(hit));
        let i = choose|i: int| 0 <= i < hits(found).len() && hits(found)[i] == hit;
        assert(after.matches[i].entry_index == k);
    }
}

/// The matches of a search are the entries in whose text the query is found, each once, with the
/// bytes of the first match there, in the order of the entries, whichever thread they are of. There
/// are none without a query, without entries, or where the query is no regular expression; only the
/// last is an error.
pub proof fn law_an_entry_matches_if_the_query_is_found_in_it(m: SearchModel)
    requires
        m.wf(),
    ensures
        m.query.len() == 0 || m.entries is None ==> m.matches.len() == 0 && m.regex_error is None,
        m.query.len() > 0 ==> (m.entries matches Some(entries) ==> match built_regex(m.query) {
            Err(error) => m.matches.len() == 0 && m.regex_error == Some(error_text(error)),
            Ok(regex) => {
                &&& m.regex_error is None
                &&& forall|i: int, j: int|
                    0 <= i < j < m.matches.len() ==> #[trigger] m.matches[i].entry_index
                        < #[trigger] m.matches[j].entry_index
                &&& forall|i: int|
                    0 <= i < m.matches.len() ==> {
                        let hit = #[trigger] m.matches[i];
                        &&& 0 <= hit.entry_index < entries.len()
                        &&& first_match(regex, entries[hit.entry_index].text) matches Some(
                            (start, end),
                        ) && hit.start == start && hit.end == end
                    }
                &&& forall|k: int|
                    0 <= k < entries.len() ==> (first_match(
                        regex,
                        (#[trigger] entries[k]).text,
                    ) is Some <==> exists|i: int|
                        0 <= i < m.matches.len() && (#[trigger] m.matches[i]).entry_index == k)
            },
        }),
{
    if m.query.len() > 0 && m.entries is Some {
        let entries = m.entries->0;
        law_every_entry_is_searched(m.query, entries);
        if let Ok(regex) = built_regex(m.query) {
            let found = search(m.query, entries)->Ok_0;
            law_what_was_found_becomes_the_matches(m, found, Seq::empty());
            assert(m.matches == m.searched(Ok(found)).matches);
            assert forall|k: int| 0 <= k < entries.len() implies (first_match(
                regex,
                (#[trigger] entries[k]).text,
            ) is Some <==> exists|i: int|
                0 <= i < m.matches.len() && (#[trigger] m.matches[i]).entry_index == k) by {
                assert(found[k] == first_match(regex, entries[k].text));
            }
        }
    }
}

/// A search fails if and only if the entries could not be loaded, or there are a query and entries
/// and the query is no regular expression or is found in none of them, however short it is.
pub proof fn law_a_search_fails_if_nothing_is_found(m: SearchModel)
    requires
        m.wf(),
    ensures
        m.load_error is Some ==> m.is_failing(),
        m.regex_error is Some ==> m.is_failing(),
        m.query.len() > 0 && m.entries is Some && m.matches.len() == 0 ==> m.is_failing(),
        m.is_failing() <==> {
            ||| m.load_error is Some
            ||| m.query.len() > 0 && (m.entries matches Some(entries) && match built_regex(m.query) {
                Err(error) => true,
                Ok(regex) => forall|k: int|
                    0 <= k < entries.len() ==> first_match(
                        regex,
                        (#[trigger] entries[k]).text,
                    ) is None,
            })
        },
{
    law_an_entry_matches_if_the_query_is_found_in_it(m);
    if m.query.len() > 0 && m.entries is Some {
        let entries = m.entries->0;
        if let Ok(regex) = built_regex(m.query) {
            if m.matches.len() > 0 {
                let k = m.matches[0].entry_index;
                assert(first_match(regex, entries[k].text) is Some);
            }
        }
    }
}

/// What is shown is the entry that is selected, with the bytes of the query in it, and the draft
/// where the query is found in no entry. As long as no step back was taken, it is the first entry in
/// which the query is found.
pub proof fn law_the_selected_entry_is_shown(m: SearchModel)
    requires
        m.wf(),
    ensures
        m.matches.len() == 0 ==> m.shown() == m.draft && m.current_match() is None
            && m.current_range() is None,
        m.matches.len() > 0 ==> {
            let k = m.matches[m.selected].entry_index;
            let entries = m.entries->0;
            &&& 0 <= m.selected < m.matches.len()
            &&& m.entries is Some
            &&& 0 <= k < entries.len()
            &&& m.current_match() == Some(entries[k])
            &&& m.shown() == entries[k].text
            &&& built_regex(m.query) matches Ok(regex) && first_match(regex, m.shown()) matches Some(
                (start, end),
            ) && m.current_range() == Some((start as int, end as int))
            &&& m.selected == 0 ==> forall|j: int|
                0 <= j < k ==> first_match(
                    built_regex(m.query)->Ok_0,
                    (#[trigger] entries[j]).text,
                ) is None
        },
{
    law_an_entry_matches_if_the_query_is_found_in_it(m);
    if m.matches.len() > 0 {
        let k = m.matches[m.selected].entry_index;
        let entries = m.entries->0;
        let regex = built_regex(m.query)->Ok_0;
        assert(m.matches[m.selected].entry_index == k);
        if m.selected == 0 {
            assert forall|j: int| 0 <= j < k implies first_match(
                regex,
                (#[trigger] entries[j]).text,
            ) is None by {
                if first_match(regex, entries[j].text) is Some {
                    let i = choose|i: int|
                        0 <= i < m.matches.len() && (#[trigger] m.matches[i]).entry_index == j;
                    if i > 0 {
                        assert(m.matches[0].entry_index < m.matches[i].entry_index);
                    }
                }
            }
        }
    }
}

/// A step back selects the next match, after the last one the first; it leaves everything else. With
/// no match it is kept while the entries are being loaded, else it does nothing.
pub proof fn law_a_step_back_selects_the_next_match(m: SearchModel)
    requires
        m.wf(),
    ensures
        m.cycled() == (SearchModel {
            selected: m.cycled().selected,
            pending: m.cycled().pending,
            ..m
        }),
        m.selected + 1 < m.matches.len() ==> m.cycled().selected == m.selected + 1,
        m.matches.len() > 0 && m.selected + 1 == m.matches.len() ==> m.cycled().selected == 0,
        m.matches.len() == 0 ==> m.cycled().selected == m.selected,
        m.matches.len() > 0 || m.entries is Some || m.pending == usize::MAX ==> m.cycled().pending
            == m.pending,
        m.matches.len() == 0 && m.entries is None && m.pending < usize::MAX ==> m.cycled().pending
            == m.pending + 1,
{
    if m.matches.len() > 0 {
        let len = m.matches.len();
        if m.selected + 1 < len {
            vstd::arithmetic::div_mod::lemma_small_mod((m.selected + 1) as nat, len);
        } else {
            vstd::arithmetic::div_mod::lemma_mod_self_0(len as int);
        }
    }
}

/// A step back goes to the next entry in which the query is found: it passes over none on the way,
/// and after the last one it goes to the first.
pub proof fn law_a_step_back_goes_to_the_next_entry(m: SearchModel)
    requires
        m.wf(),
        m.matches.len() > 0,
    ensures
        ({
            let entries = m.entries->0;
            let regex = built_regex(m.query)->Ok_0;
            let from = m.matches[m.selected].entry_index;
            let to = m.cycled().matches[m.cycled().selected].entry_index;
            &&& 0 <= to < entries.len()
            &&& m.cycled().shown() == entries[to].text
            &&& first_match(regex, entries[to].text) is Some
            &&& to > from ==> forall|k: int|
                from < k < to ==> first_match(regex, (#[trigger] entries[k]).text) is None
            &&& to <= from ==> forall|k: int|
                0 <= k < to || from < k < entries.len() ==> first_match(
                    regex,
                    (#[trigger] entries[k]).text,
                ) is None
        }),
{
    law_an_entry_matches_if_the_query_is_found_in_it(m);
    law_a_step_back_selects_the_next_match(m);
    let entries = m.entries->0;
    let regex = built_regex(m.query)->Ok_0;
    let next = m.cycled().selected;
    let from = m.matches[m.selected].entry_index;
    let to = m.matches[next].entry_index;
    assert(m.is_searchable());
    assert forall|k: int|
        0 <= k < entries.len() && first_match(
            regex,
            (#[trigger] entries[k]).text,
        ) is Some implies if next > m.selected {
        k <= from || to <= k
    } else {
        to <= k <= from
    } by {
        let i = choose|i: int|
            0 <= i < m.matches.len() && (#[trigger] m.matches[i]).entry_index == k;
        if i < m.selected {
            assert(m.matches[i].entry_index < m.matches[m.selected].entry_index);
        }
        if i > next {
            assert(m.matches[next].entry_index < m.matches[i].entry_index);
        }
    }
    if next > m.selected {
        assert(m.matches[m.selected].entry_index < m.matches[next].entry_index);
    } else if next < m.selected {
        assert(m.matches[next].entry_index < m.matches[m.selected].entry_index);
    }
}

/// A search begins with nothing but its thread, its request and its draft.
pub proof fn law_a_search_begins_empty(thread_id: ThreadId, request_id: u64, draft: Seq<char>)
    ensures
        ({
            let m = SearchModel::begun(thread_id, request_id, draft);
            &&& m.thread_id == thread_id
            &&& m.request_id == request_id
            &&& m.draft == draft
            &&& m.query.len() == 0
            &&& m.entries is None
            &&& m.matches.len() == 0
            &&& m.selected == 0
            &&& m.pending == 0
            &&& m.load_error is None
            &&& m.regex_error is None
            &&& m.shown() == draft
            &&& !m.is_failing()
        }),
{
}

proof fn lemma_matches_of_refreshed(m: SearchModel)
    ensures
        ({
            let after = m.refreshed();
            let entries = m.entries->0;
            let is_searched = m.query.len() > 0 && m.entries is Some && built_regex(m.query) is Ok;
            &&& forall|k: int|
                is_searched && 0 <= k < entries.len() ==> {
                    let found = first_match(built_regex(m.query)->Ok_0, (#[trigger] entries[k]).text);
                    &&& found is None ==> forall|i: int|
                        0 <= i < after.matches.len() ==> (#[trigger] after.matches[i]).entry_index
                            != k
                    &&& found matches Some((start, end)) ==> after.matches.contains(
                        MatchModel { entry_index: k, start: start as int, end: end as int },
                    )
                }
            &&& forall|i: int|
                0 <= i < after.matches.len() ==> 0 <= (#[trigger] after.matches[i]).entry_index
                    < entries.len()
            &&& forall|i: int, j: int|
                0 <= i < j < after.matches.len() ==> #[trigger] after.matches[i].entry_index
                    < #[trigger] after.matches[j].entry_index
        }),
{
    if m.query.len() > 0 && m.entries is Some && built_regex(m.query) is Ok {
        let found = search(m.query, m.entries->0)->Ok_0;
        lemma_hits(found);
        assert forall|k: int| 0 <= k < (m.entries->0).len() implies found[k] == first_match(
            built_regex(m.query)->Ok_0,
            (#[trigger] (m.entries->0)[k]).text,
        ) by {}
    }
}

/// Another query changes nothing but the query and what follows from it: the matches, which of them is
/// selected, and the error. The steps back that were kept select the match, counted round, and are
/// spent if the entries could be searched; else they are kept.
pub proof fn law_another_query_is_searched_for(m: SearchModel, query: Seq<char>)
    ensures
        ({
            let after = m.with_query(query);
            let is_searched = query.len() > 0 && m.entries is Some && built_regex(query) is Ok;
            let entries = m.entries->0;
            &&& after == (SearchModel {
                query,
                matches: after.matches,
                selected: after.selected,
                pending: after.pending,
                regex_error: after.regex_error,
                ..m
            })
            &&& forall|k: int|
                is_searched && 0 <= k < entries.len() ==> {
                    let found = first_match(built_regex(query)->Ok_0, (#[trigger] entries[k]).text);
                    &&& found is None ==> forall|i: int|
                        0 <= i < after.matches.len() ==> (#[trigger] after.matches[i]).entry_index
                            != k
                    &&& found matches Some((start, end)) ==> after.matches.contains(
                        MatchModel { entry_index: k, start: start as int, end: end as int },
                    )
                }
            &&& forall|i: int|
                0 <= i < after.matches.len() ==> 0 <= (#[trigger] after.matches[i]).entry_index
                    < entries.len()
            &&& forall|i: int, j: int|
                0 <= i < j < after.matches.len() ==> #[trigger] after.matches[i].entry_index
                    < #[trigger] after.matches[j].entry_index
            &&& after.regex_error == (if query.len() > 0 && m.entries is Some {
                match built_regex(query) {
                    Ok(regex) => None,
                    Err(error) => Some(error_text(error)),
                }
            } else {
                None
            })
            &&& is_searched ==> after.pending == 0
            &&& !is_searched ==> after.pending == m.pending && after.matches.len() == 0
            &&& after.matches.len() == 0 ==> after.selected == 0
            &&& after.matches.len() > 0 ==> after.selected == m.pending % (
            after.matches.len() as int)
        }),
{
    lemma_matches_of_refreshed(SearchModel { query, ..m });
}

/// Erasing takes the last character off the query, if there is one, and searches for what is left.
pub proof fn law_erasing_takes_the_last_character_off(m: SearchModel)
    ensures
        m.query.len() == 0 ==> m.erased().query.len() == 0,
        m.query.len() > 0 ==> m.erased().query.push(m.query.last()) == m.query,
        m.erased() == m.with_query(m.erased().query),
{
}

/// Loading sets the entries, all of them as they are, or none and the error, and nothing else but
/// what follows from them; the steps back that were kept select the match.
pub proof fn law_what_was_loaded_is_searched(
    m: SearchModel,
    result: Result<Seq<EntryModel>, Seq<char>>,
)
    ensures
        ({
            let after = m.loaded(result);
            let is_searched = m.query.len() > 0 && built_regex(m.query) is Ok;
            let entries = after.entries->0;
            &&& after == (SearchModel {
                entries: after.entries,
                load_error: after.load_error,
                matches: after.matches,
                selected: after.selected,
                pending: after.pending,
                regex_error: after.regex_error,
                ..m
            })
            &&& match result {
                Ok(entries) => after.entries == Some(entries) && after.load_error is None,
                Err(error) => after.entries == Some(Seq::<EntryModel>::empty()) && after.load_error
                    == Some(error) && after.is_failing(),
            }
            &&& forall|k: int|
                is_searched && 0 <= k < entries.len() ==> {
                    let found = first_match(built_regex(m.query)->Ok_0, (#[trigger] entries[k]).text);
                    &&& found is None ==> forall|i: int|
                        0 <= i < after.matches.len() ==> (#[trigger] after.matches[i]).entry_index
                            != k
                    &&& found matches Some((start, end)) ==> after.matches.contains(
                        MatchModel { entry_index: k, start: start as int, end: end as int },
                    )
                }
            &&& forall|i: int|
                0 <= i < after.matches.len() ==> 0 <= (#[trigger] after.matches[i]).entry_index
                    < entries.len()
            &&& forall|i: int, j: int|
                0 <= i < j < after.matches.len() ==> #[trigger] after.matches[i].entry_index
                    < #[trigger] after.matches[j].entry_index
            &&& after.regex_error == (if m.query.len() > 0 {
                match built_regex(m.query) {
                    Ok(regex) => None,
                    Err(error) => Some(error_text(error)),
                }
            } else {
                None
            })
            &&& is_searched ==> after.pending == 0
            &&& !is_searched ==> after.pending == m.pending && after.matches.len() == 0
            &&& after.matches.len() == 0 ==> after.selected == 0
            &&& after.matches.len() > 0 ==> after.selected == m.pending % (
            after.matches.len() as int)
        }),
{
    let after = m.loaded(result);
    lemma_matches_of_refreshed(
        SearchModel { entries: after.entries, load_error: after.load_error, ..m },
    );
}

/// The parts of a search are taken for what they hold.
pub proof fn law_a_search_is_taken_as_it_is(active: ActiveReverseSearch, i: int)
    ensures
        active@.thread_id == active.thread_id,
        active@.request_id == active.request_id,
        active@.draft == active.original_draft.text@,
        active@.query == active.query@,
        active.entries is None ==> active@.entries is None,
        active.entries matches Some(entries) ==> active@.entries is Some && (
        active@.entries->0).len() == entries@.len() && (0 <= i < entries@.len() ==> (
        active@.entries->0)[i] == (EntryModel {
            thread_id: entries@[i].thread_id,
            text: entries@[i].text@,
        })),
        active@.matches.len() == active.filtered_matches@.len(),
        0 <= i < active.filtered_matches@.len() ==> active@.matches[i] == (MatchModel {
            entry_index: active.filtered_matches@[i].entry_index as int,
            start: active.filtered_matches@[i].range.start as int,
            end: active.filtered_matches@[i].range.end as int,
        }),
        active@.selected == active.selected_match,
        active@.pending == active.pending_cycle_backwards,
        active.load_error is None ==> active@.load_error is None,
        active.load_error matches Some(error) ==> active@.load_error == Some(error@),
        active.regex_error is None ==> active@.regex_error is None,
        active.regex_error matches Some(error) ==> active@.regex_error == Some(error@),
{
}

/// What is handed to a search is taken as it is: the outcome of a search of the entries, and the
/// result of a load.
pub proof fn law_outcomes_are_taken_as_they_are(
    found: Vec<Option<(usize, usize)>>,
    entries: Vec<ReverseSearchEntry>,
    error: String,
    i: int,
)
    ensures
        outcome_model(Ok(found)) == Ok::<Seq<Option<(usize, usize)>>, Seq<char>>(found@),
        outcome_model(Err(error)) == Err::<Seq<Option<(usize, usize)>>, Seq<char>>(error@),
        load_model(Err(error)) == Err::<Seq<EntryModel>, Seq<char>>(error@),
        load_model(Ok(entries)) matches Ok(loaded) && loaded.len() == entries@.len() && (0 <= i
            < entries@.len() ==> loaded[i] == (EntryModel {
            thread_id: entries@[i].thread_id,
            text: entries@[i].text@,
        })),
{
}

proof fn lemma_cycled_times(m: SearchModel, n: nat)
    requires
        m.matches.len() > 0,
        0 <= m.selected,
    ensures
        cycled_times(m, n).matches == m.matches,
        cycled_times(m, n) == (SearchModel {
            selected: if n == 0 {
                m.selected
            } else {
                (m.selected + n) % (m.matches.len() as int)
            },
            ..m
        }),
    decreases n,
{
    if n > 0 {
        lemma_cycled_times(m, (n - 1) as nat);
        let len = m.matches.len() as int;
        let before = m.selected + n - 1;
        vstd::arithmetic::div_mod::lemma_add_mod_noop(before, 1, len);
        vstd::arithmetic::div_mod::lemma_mod_twice(before, len);
        vstd::arithmetic::div_mod::lemma_add_mod_noop(before % len, 1, len);
    }
}

/// Going back as many times as there are matches comes round to the same one.
pub proof fn law_a_full_round_changes_nothing(m: SearchModel)
    requires
        m.wf(),
    ensures
        m.matches.len() > 0 ==> cycled_times(m, m.matches.len()) == m,
{
    if m.matches.len() > 0 {
        lemma_cycled_times(m, m.matches.len());
        let len = m.matches.len() as int;
        vstd::arithmetic::div_mod::lemma_mod_add_multiples_vanish(m.selected, len);
        vstd::arithmetic::div_mod::lemma_small_mod(m.selected as nat, len as nat);
        assert((m.selected + len) % len == m.selected);
    }
}

/// Within one round every match comes to be selected.
pub proof fn law_a_round_visits_every_match(m: SearchModel, i: int)
    requires
        m.wf(),
        0 <= i < m.matches.len(),
    ensures
        exists|n: nat| n < m.matches.len() && (#[trigger] cycled_times(m, n)).selected == i,
{
    let len = m.matches.len() as int;
    let n = if i >= m.selected {
        (i - m.selected) as nat
    } else {
        (i - m.selected + len) as nat
    };
    lemma_cycled_times(m, n);
    vstd::arithmetic::div_mod::lemma_mod_add_multiples_vanish(i, len);
    vstd::arithmetic::div_mod::lemma_small_mod(i as nat, len as nat);
    assert(cycled_times(m, n).selected == i);
}

proof fn lemma_queued(m: SearchModel, n: nat)
    requires
        m.entries is None,
        m.matches.len() == 0,
        0 <= m.pending <= usize::MAX,
    ensures
        cycled_times(m, n) == (SearchModel {
            pending: if m.pending + n <= usize::MAX {
                m.pending + n
            } else {
                usize::MAX as int
            },
            ..m
        }),
    decreases n,
{
    if n > 0 {
        lemma_queued(m, (n - 1) as nat);
    }
}

proof fn lemma_nothing_to_cycle(m: SearchModel, n: nat)
    requires
        m.entries is Some,
        m.matches.len() == 0,
    ensures
        cycled_times(m, n) == m,
    decreases n,
{
    if n > 0 {
        lemma_nothing_to_cycle(m, (n - 1) as nat);
    }
}

/// The two searches differ in nothing but which match is selected and which steps back are kept for
/// later. They have the same footer, too.
pub open spec fn agree_but_for_steps(a: SearchModel, b: SearchModel) -> bool {
    &&& a == (SearchModel { selected: a.selected, pending: a.pending, ..b })
    &&& a.footer() == b.footer()
}

/// Steps back that are taken while the entries are being loaded count as if they were taken once
/// the entries were there. Where the load leaves nothing to search for, because the query is empty or
/// no regular expression, they are kept. There are never more than `usize::MAX`.
pub proof fn law_queued_cycles_are_applied_after_loading(
    m: SearchModel,
    n: nat,
    result: Result<Seq<EntryModel>, Seq<char>>,
)
    requires
        m.wf(),
        m.entries is None,
    ensures
        agree_but_for_steps(cycled_times(m, n).loaded(result), cycled_times(m.loaded(result), n)),
        m.pending + n <= usize::MAX && m.query.len() > 0 && built_regex(m.query) is Ok
            ==> cycled_times(m, n).loaded(result) == cycled_times(m.loaded(result), n),
        m.pending + n <= usize::MAX && (m.query.len() == 0 || built_regex(m.query) is Err)
            ==> cycled_times(m, n).loaded(result).pending == m.pending + n,
{
    lemma_queued(m, n);
    let later = m.loaded(result);
    let entries = later.entries->0;
    let found = search(m.query, entries)->Ok_0;
    if later.matches.len() == 0 {
        lemma_nothing_to_cycle(later, n);
    } else {
        assert(later.matches == hits(found));
        let len = hits(found).len() as int;
        lemma_cycled_times(later, n);
        vstd::arithmetic::div_mod::lemma_add_mod_noop(m.pending, n as int, len);
        vstd::arithmetic::div_mod::lemma_add_mod_noop(m.pending % len, n as int, len);
        vstd::arithmetic::div_mod::lemma_mod_twice(m.pending, len);
    }
}

/// Taking a character off the query undoes appending it: the same query, matches, error and footer,
/// with the first match selected. Only the steps back that were kept are gone if the longer query
/// was searched for: they were spent on it.
pub proof fn law_erasing_undoes_typing(m: SearchModel, c: char)
    requires
        m.wf(),
    ensures
        ({
            let erased = after_step(after_step(m, Step::AppendChar(c)), Step::PopChar);
            &&& erased.query == m.query
            &&& erased.entries == m.entries
            &&& erased.matches == m.matches
            &&& erased.regex_error == m.regex_error
            &&& erased.footer() == m.footer()
            &&& erased == (SearchModel {
                selected: 0,
                pending: if m.entries is Some && built_regex(m.query.push(c)) is Ok {
                    0
                } else {
                    m.pending
                },
                ..m
            })
        }),
{
    assert(m.query.push(c).drop_last() =~= m.query);
    if hits(search(m.query, m.entries->0)->Ok_0).len() > 0 {
        vstd::arithmetic::div_mod::lemma_small_mod(
            0,
            hits(search(m.query, m.entries->0)->Ok_0).len(),
        );
    }
}

/// While a string is appended to the query character by character, the entries are searched before
/// its last character is there: steps back that were kept are spent then.
pub open spec fn spends_steps_on_the_way(m: SearchModel, s: Seq<char>) -> bool {
    m.entries is Some && exists|k: int|
        0 < k < s.len() && built_regex(m.query + #[trigger] s.take(k)) is Ok
}

/// A string that is appended at once counts as its characters appended one by one: the same query,
/// matches, error and footer. It is the same search in every respect if no steps back were kept or
/// none were spent on the way; else the selection starts from none kept.
pub proof fn law_appending_a_string_is_typing_it(m: SearchModel, s: Seq<char>)
    requires
        s.len() > 0,
    ensures
        agree_but_for_steps(after_step(m, Step::AppendStr(s)), typed(m, s)),
        m.pending == 0 || !spends_steps_on_the_way(m, s) ==> after_step(m, Step::AppendStr(s))
            == typed(m, s),
        typed(m, s) == (SearchModel {
            pending: if spends_steps_on_the_way(m, s) {
                0
            } else {
                m.pending
            },
            ..m
        }).with_query(m.query + s),
    decreases s.len(),
{
    if s.len() == 1 {
        assert(s.drop_last() =~= Seq::empty());
        assert(m.query + s =~= m.query.push(s.last()));
        reveal_with_fuel(typed, 2);
    } else {
        let front = s.drop_last();
        law_appending_a_string_is_typing_it(m, front);
        assert((m.query + front).push(s.last()) =~= m.query + s);
        assert(s.take(front.len() as int) =~= front);
        assert forall|k: int| 0 < k < front.len() implies front.take(k) == s.take(k) by {
            assert(front.take(k) =~= s.take(k));
        }
        if spends_steps_on_the_way(m, front) {
            let k = choose|k: int|
                0 < k < front.len() && built_regex(m.query + #[trigger] front.take(k)) is Ok;
            assert(built_regex(m.query + s.take(k)) is Ok);
        } else if spends_steps_on_the_way(m, s) {
            let k = choose|k: int|
                0 < k < s.len() && built_regex(m.query + #[trigger] s.take(k)) is Ok;
            if k < front.len() {
                assert(built_regex(m.query + front.take(k)) is Ok);
            }
        }
    }
}

/// The pieces of the footer and their styles: a warning in red if the search fails, the label in bold
/// cyan, a colon, the query as it is, a dim cursor, and a dim note while the entries are being loaded.
pub proof fn law_footer_pieces(m: SearchModel)
    ensures
        ({
            let footer = m.footer();
            let n: int = if m.is_failing() {
                1
            } else {
                0
            };
            let none = SpanStyle { foreground: None, bold: false, dim: false, other: false };
            &&& footer.len() == n + 4 + (if m.entries is None {
                1int
            } else {
                0int
            })
            &&& m.is_failing() ==> footer[0] == (StyledText {
                text: "failing "@,
                style: SpanStyle { foreground: Some(Foreground::Red), ..none },
            })
            &&& footer[n] == (StyledText {
                text: "bck-i-search"@,
                style: SpanStyle { foreground: Some(Foreground::Cyan), bold: true, ..none },
            })
            &&& footer[n + 1] == (StyledText { text: ": "@, style: none })
            &&& footer[n + 2] == (StyledText { text: m.query, style: none })
            &&& footer[n + 3] == (StyledText {
                text: "_"@,
                style: SpanStyle { dim: true, ..none },
            })
            &&& m.entries is None ==> footer[n + 4] == (StyledText {
                text: " (loading...)"@,
                style: SpanStyle { dim: true, ..none },
            })
        }),
{
}

/// The footer of a search in which the query is found nowhere starts with the warning, and that of
/// one in which it is found somewhere does not.
pub proof fn law_footer_warns_if_nothing_is_found(m: SearchModel)
    requires
        m.wf(),
        m.load_error is None,
        m.query.len() > 0,
        m.entries is Some,
        built_regex(m.query) is Ok,
    ensures
        ({
            let entries = m.entries->0;
            let is_found = exists|k: int|
                0 <= k < entries.len() && first_match(
                    built_regex(m.query)->Ok_0,
                    (#[trigger] entries[k]).text,
                ) is Some;
            footer_text(m.footer()) == (if is_found {
                Seq::empty()
            } else {
                "failing "@
            }) + "bck-i-search: "@ + m.query + "_"@
        }),
{
    law_a_search_fails_if_nothing_is_found(m);
    law_footer_reads(m);
    let head = if m.is_failing() {
        "failing "@
    } else {
        Seq::empty()
    };
    assert(head + "bck-i-search: "@ + m.query + "_"@ + Seq::<char>::empty() =~= head
        + "bck-i-search: "@ + m.query + "_"@);
}

/// The footer reads `bck-i-search: `, the query and a cursor, after a warning if the search fails
/// and before a note while the entries are being loaded.
pub proof fn law_footer_reads(m: SearchModel)
    ensures
        footer_text(m.footer()) == (if m.is_failing() {
            "failing "@
        } else {
            Seq::empty()
        }) + "bck-i-search: "@ + m.query + "_"@ + (if m.entries is None {
            " (loading...)"@
        } else {
            Seq::empty()
        }),
{
    reveal_strlit("bck-i-search");
    reveal_strlit(": ");
    reveal_strlit("bck-i-search: ");
    reveal_with_fuel(footer_text, 8);
    assert("bck-i-search"@ + ": "@ =~= "bck-i-search: "@);
    let footer = m.footer();
    let core = if m.entries is None {
        footer.drop_last()
    } else {
        footer
    };
    let a = core.drop_last();
    let b = a.drop_last();
    let c = b.drop_last();
    let d = c.drop_last();
    assert(core.last().text == "_"@);
    assert(a.last().text == m.query);
    assert(b.last().text == ": "@);
    assert(c.last().text == "bck-i-search"@);
    assert(d.len() == (if m.is_failing() {
        1int
    } else {
        0int
    }));
    if m.is_failing() {
        assert(d.last().text == "failing "@);
        assert(d.drop_last() =~= Seq::empty());
    }
    assert(footer_text(footer) =~= (if m.is_failing() {
        "failing "@
    } else {
        Seq::empty()
    }) + "bck-i-search: "@ + m.query + "_"@ + (if m.entries is None {
        " (loading...)"@
    } else {
        Seq::empty()
    }));
}

} // verus!
