//! What holds of every load.

use crate::entries::EntryModel;
use crate::family::{
    connected, is_edge, is_family, is_fork, is_thread_order, is_way,
    law_precedence_is_a_strict_order, law_thread_order_exists, law_thread_order_is_unique,
    lemma_closed_set_holds_connected, precedes, scanned, seeded, session_of, ReverseSearchContext,
    Rollout, SessionInfo,
};
use crate::load::{read_model, LoadModel};
use crate::messages::{gathered, thread_entries, RolloutLine};
use crate::text::string_less;
use crate::thread_id::{law_written_order_is_number_order, ThreadId};
use vstd::prelude::*;

verus! {

/// The entries of some threads with these rollout lines, thread by thread.
pub open spec fn all_entries(order: Seq<ThreadId>, transcripts: Seq<Seq<RolloutLine>>) -> Seq<
    EntryModel,
>
    decreases order.len(),
{
    if order.len() == 0 {
        Seq::empty()
    } else {
        all_entries(order.drop_last(), transcripts.drop_last()) + thread_entries(
            order.last(),
            transcripts.last(),
        )
    }
}

/// Reads that all went well.
pub open spec fn good_reads(transcripts: Seq<Seq<RolloutLine>>) -> Seq<
    Result<Seq<RolloutLine>, Seq<char>>,
> {
    transcripts.map_values(|lines: Seq<RolloutLine>| Ok::<Seq<RolloutLine>, Seq<char>>(lines))
}

/// Of the rollouts of a thread the last one counts.
pub proof fn law_last_rollout_of_a_thread_counts(rollouts: Seq<Rollout>, i: int)
    requires
        0 <= i < rollouts.len(),
        rollouts[i].meta is Some,
        forall|j: int|
            i < j < rollouts.len() ==> ((#[trigger] rollouts[j]).meta matches Some(meta) ==> meta.id
                != (rollouts[i].meta->0).id),
    ensures
        scanned(rollouts).contains_key((rollouts[i].meta->0).id.value),
        scanned(rollouts)[(rollouts[i].meta->0).id.value] == session_of(
            rollouts[i],
            rollouts[i].meta->0,
        ),
        ({
            let session = scanned(rollouts)[(rollouts[i].meta->0).id.value];
            &&& session.path == rollouts[i].path
            &&& session.forked_from_id == (rollouts[i].meta->0).forked_from_id
            &&& rollouts[i].modified matches Some(time) ==> session.updated_at == time
            &&& rollouts[i].modified is None ==> session.updated_at == 0
        }),
    decreases rollouts.len(),
{
    let rest = rollouts.drop_last();
    if i < rest.len() {
        assert forall|j: int| i < j < rest.len() implies ((#[trigger] rest[j]).meta matches Some(
            meta,
        ) ==> meta.id != (rest[i].meta->0).id) by {
            assert(rest[j] == rollouts[j]);
        }
        law_last_rollout_of_a_thread_counts(rest, i);
        assert(rollouts[rollouts.len() - 1] == rollouts.last());
    }
}

/// A thread has a session only if a rollout has its metadata.
pub proof fn law_a_session_comes_from_a_rollout(rollouts: Seq<Rollout>, id: u128)
    requires
        scanned(rollouts).contains_key(id),
    ensures
        exists|i: int|
            0 <= i < rollouts.len() && ((#[trigger] rollouts[i]).meta matches Some(meta)
                && meta.id.value == id),
    decreases rollouts.len(),
{
    if rollouts.last().meta matches Some(meta) && meta.id.value == id {
        assert(rollouts[rollouts.len() - 1].meta is Some);
    } else {
        law_a_session_comes_from_a_rollout(rollouts.drop_last(), id);
        let i = choose|i: int|
            0 <= i < rollouts.drop_last().len() && ((
            #[trigger] rollouts.drop_last()[i]).meta matches Some(meta) && meta.id.value == id);
        assert(rollouts[i] == rollouts.drop_last()[i]);
    }
}

proof fn lemma_last_rollout_of_a_thread(rollouts: Seq<Rollout>, id: u128) -> (i: int)
    requires
        scanned(rollouts).contains_key(id),
    ensures
        0 <= i < rollouts.len(),
        rollouts[i].meta matches Some(meta) && meta.id.value == id,
        forall|j: int|
            i < j < rollouts.len() ==> ((#[trigger] rollouts[j]).meta matches Some(meta)
                ==> meta.id.value != id),
    decreases rollouts.len(),
{
    let n = rollouts.len() - 1;
    if rollouts.last().meta matches Some(meta) && meta.id.value == id {
        n
    } else {
        let i = lemma_last_rollout_of_a_thread(rollouts.drop_last(), id);
        assert forall|j: int| i < j < rollouts.len() implies ((
        #[trigger] rollouts[j]).meta matches Some(meta) ==> meta.id.value != id) by {
            if j < n {
                assert(rollouts.drop_last()[j] == rollouts[j]);
            }
        }
        i
    }
}

/// The session of the context is added where there is none and its rollout is known, with what the
/// context says; all other sessions, and one that the context has already, stay as they are.
pub proof fn law_only_a_missing_session_is_added(
    sessions: Map<u128, SessionInfo>,
    context: ReverseSearchContext,
    modified: Option<i128>,
)
    ensures
        ({
            let start = context.thread_id.value;
            let after = seeded(sessions, context, modified);
            &&& forall|id: u128|
                id != start || sessions.contains_key(id) ==> {
                    &&& #[trigger] after.contains_key(id) == sessions.contains_key(id)
                    &&& sessions.contains_key(id) ==> after[id] == sessions[id]
                }
            &&& after.contains_key(start) <==> sessions.contains_key(start)
                || context.rollout_path is Some
            &&& !sessions.contains_key(start) && after.contains_key(start) ==> {
                &&& context.rollout_path == Some(after[start].path)
                &&& after[start].forked_from_id == context.forked_from_id
                &&& modified matches Some(time) ==> after[start].updated_at == time
                &&& modified is None ==> after[start].updated_at == 0
            }
        }),
{
}

/// A load knows a thread if a rollout has its metadata, or if it is that of the context and its
/// rollout is known. What it knows of it comes from the last of its rollouts, else from the context.
pub proof fn law_a_load_starts_with_the_sessions_of_the_rollouts(
    rollouts: Seq<Rollout>,
    context: ReverseSearchContext,
    modified: Option<i128>,
    id: u128,
)
    ensures
        ({
            let sessions = LoadModel::started(rollouts, context, modified).sessions;
            let session = sessions[id];
            let is_recorded = exists|i: int|
                0 <= i < rollouts.len() && ((#[trigger] rollouts[i]).meta matches Some(meta)
                    && meta.id.value == id);
            &&& sessions.contains_key(id) <==> is_recorded || (id == context.thread_id.value
                && context.rollout_path is Some)
            &&& is_recorded ==> exists|i: int|
                {
                    &&& 0 <= i < rollouts.len()
                    &&& (#[trigger] rollouts[i]).meta matches Some(meta) && meta.id.value == id
                        && session.forked_from_id == meta.forked_from_id
                    &&& session.path == rollouts[i].path
                    &&& rollouts[i].modified matches Some(time) ==> session.updated_at == time
                    &&& rollouts[i].modified is None ==> session.updated_at == 0
                    &&& forall|j: int|
                        i < j < rollouts.len() ==> ((#[trigger] rollouts[j]).meta matches Some(meta)
                            ==> meta.id.value != id)
                }
            &&& !is_recorded && sessions.contains_key(id) ==> {
                &&& context.rollout_path == Some(session.path)
                &&& session.forked_from_id == context.forked_from_id
                &&& modified matches Some(time) ==> session.updated_at == time
                &&& modified is None ==> session.updated_at == 0
            }
        }),
{
    let sessions = scanned(rollouts);
    law_only_a_missing_session_is_added(sessions, context, modified);
    if sessions.contains_key(id) {
        let i = lemma_last_rollout_of_a_thread(rollouts, id);
        assert forall|j: int| i < j < rollouts.len() implies ((
        #[trigger] rollouts[j]).meta matches Some(meta) ==> meta.id != (rollouts[i].meta->0).id) by {
        }
        law_last_rollout_of_a_thread_counts(rollouts, i);
        assert(rollouts[i].meta is Some);
    } else if exists|i: int|
        0 <= i < rollouts.len() && ((#[trigger] rollouts[i]).meta matches Some(meta)
            && meta.id.value == id) {
        let i = choose|i: int|
            0 <= i < rollouts.len() && ((#[trigger] rollouts[i]).meta matches Some(meta)
                && meta.id.value == id);
        lemma_recorded_thread_has_a_session(rollouts, i);
    }
}

proof fn lemma_recorded_thread_has_a_session(rollouts: Seq<Rollout>, i: int)
    requires
        0 <= i < rollouts.len(),
        rollouts[i].meta is Some,
    ensures
        scanned(rollouts).contains_key((rollouts[i].meta->0).id.value),
    decreases rollouts.len(),
{
    if i < rollouts.len() - 1 {
        lemma_recorded_thread_has_a_session(rollouts.drop_last(), i);
    }
}

/// A load starts with nothing read, and reads the threads of the family that it knows, in order.
pub proof fn law_a_load_starts_at_the_head_of_the_family(
    rollouts: Seq<Rollout>,
    context: ReverseSearchContext,
    modified: Option<i128>,
)
    ensures
        ({
            let start = LoadModel::started(rollouts, context, modified);
            &&& start.done == 0
            &&& start.entries.len() == 0
            &&& start.error is None
            &&& is_thread_order(start.sessions, context, start.order)
            &&& start.order.no_duplicates()
            &&& forall|id: ThreadId| #[trigger]
                start.order.contains(id) <==> is_family(start.sessions, context, id.value)
            &&& forall|i: int, j: int|
                0 <= i < j < start.order.len() ==> {
                    let (a, b) = (#[trigger] start.order[i], #[trigger] start.order[j]);
                    let left = start.sessions[a.value].updated_at;
                    let right = start.sessions[b.value].updated_at;
                    &&& b != context.thread_id
                    &&& a == context.thread_id || left > right || (left == right && a.value
                        < b.value)
                }
        }),
{
    let start = LoadModel::started(rollouts, context, modified);
    lemma_scanned_is_finite(rollouts);
    law_thread_order_exists(start.sessions, context);
    law_the_order_lists_the_family(start.sessions, context, start.order);
}

/// Connection works in both directions.
pub proof fn law_connection_is_mutual(
    sessions: Map<u128, SessionInfo>,
    context: ReverseSearchContext,
    a: u128,
    b: u128,
)
    ensures
        connected(sessions, context, a, b) <==> connected(sessions, context, b, a),
{
    if connected(sessions, context, a, b) {
        lemma_way_back(sessions, context, a, b);
    }
    if connected(sessions, context, b, a) {
        lemma_way_back(sessions, context, b, a);
    }
}

proof fn lemma_way_back(
    sessions: Map<u128, SessionInfo>,
    context: ReverseSearchContext,
    a: u128,
    b: u128,
)
    requires
        connected(sessions, context, a, b),
    ensures
        connected(sessions, context, b, a),
{
    let way = choose|way: Seq<u128>| is_way(sessions, context, way, a, b);
    let back = way.reverse();
    assert forall|i: int| 0 <= i < back.len() - 1 implies is_edge(
        sessions,
        context,
        #[trigger] back[i],
        back[i + 1],
    ) by {
        let j = way.len() - 2 - i;
        assert(is_edge(sessions, context, way[j], way[j + 1]));
    }
    assert(is_way(sessions, context, back, b, a));
}

/// What is connected with a connected thread is connected.
pub proof fn law_connection_is_transitive(
    sessions: Map<u128, SessionInfo>,
    context: ReverseSearchContext,
    a: u128,
    b: u128,
    c: u128,
)
    requires
        connected(sessions, context, a, b),
        connected(sessions, context, b, c),
    ensures
        connected(sessions, context, a, c),
{
    let there = choose|way: Seq<u128>| is_way(sessions, context, way, a, b);
    let on = choose|way: Seq<u128>| is_way(sessions, context, way, b, c);
    let way = there + on.drop_first();
    assert forall|i: int| 0 <= i < way.len() - 1 implies is_edge(
        sessions,
        context,
        #[trigger] way[i],
        way[i + 1],
    ) by {
        if i < there.len() - 1 {
            assert(way[i] == there[i] && way[i + 1] == there[i + 1]);
        } else {
            let j = i - (there.len() - 1);
            assert(way[i] == on[j] && way[i + 1] == on[j + 1]);
        }
    }
    assert(way.last() == c);
    assert(is_way(sessions, context, way, a, c));
}

/// Two forks of the same thread are connected, also where that thread has no session.
pub proof fn law_siblings_are_connected(
    sessions: Map<u128, SessionInfo>,
    context: ReverseSearchContext,
    parent: u128,
    a: u128,
    b: u128,
)
    requires
        is_fork(sessions, context, a, parent),
        is_fork(sessions, context, b, parent),
    ensures
        connected(sessions, context, a, b),
        connected(sessions, context, a, parent),
{
    assert(is_way(sessions, context, seq![a, parent, b], a, b));
    assert(is_way(sessions, context, seq![a, parent], a, parent));
}

/// A thread that was not forked and from which none was forked has no family but itself.
pub proof fn law_a_lone_thread_is_its_own_family(
    sessions: Map<u128, SessionInfo>,
    context: ReverseSearchContext,
    id: u128,
)
    requires
        forall|other: u128| !#[trigger] is_edge(sessions, context, context.thread_id.value, other),
        is_family(sessions, context, id),
    ensures
        id == context.thread_id.value,
{
    let way = choose|way: Seq<u128>|
        is_way(sessions, context, way, context.thread_id.value, id);
    if way.len() > 1 {
        assert(is_edge(sessions, context, way[0], way[1]));
    }
}

/// A thread is connected with the one that its session, or the context, says it was forked from.
pub proof fn law_a_fork_is_connected_with_its_parent(
    sessions: Map<u128, SessionInfo>,
    context: ReverseSearchContext,
    id: u128,
    parent: ThreadId,
)
    requires
        (sessions.contains_key(id) && sessions[id].forked_from_id == Some(parent)) || (
        context.thread_id.value == id && context.forked_from_id == Some(parent)),
    ensures
        connected(sessions, context, id, parent.value),
        connected(sessions, context, parent.value, id),
{
    assert(is_edge(sessions, context, id, parent.value));
    assert(is_edge(sessions, context, parent.value, id));
    assert(is_way(sessions, context, seq![id, parent.value], id, parent.value));
    assert(is_way(sessions, context, seq![parent.value, id], parent.value, id));
}

/// Forks are all that connects: where some threads are such that of a fork and its parent either
/// both are among them or neither is, nothing outside is connected with one of them.
pub proof fn law_only_forks_connect(
    sessions: Map<u128, SessionInfo>,
    context: ReverseSearchContext,
    set: Set<u128>,
    a: u128,
    b: u128,
)
    requires
        set.contains(a),
        forall|id: u128| #[trigger]
            sessions.contains_key(id) ==> (sessions[id].forked_from_id matches Some(parent)
                ==> set.contains(id) == set.contains(parent.value)),
        context.forked_from_id matches Some(parent) ==> set.contains(context.thread_id.value)
            == set.contains(parent.value),
        connected(sessions, context, a, b),
    ensures
        set.contains(b),
{
    assert forall|x: u128, y: u128|
        #![trigger set.contains(x), is_edge(sessions, context, x, y)]
        set.contains(x) && is_edge(sessions, context, x, y) implies set.contains(y) by {}
    lemma_closed_set_holds_connected(sessions, context, set, a, b);
}

/// The family is what forks make it: the threads with a session that are in every set of threads that
/// holds that of the context and, of a fork and its parent, both or neither.
pub proof fn law_the_family_is_what_forks_connect(
    sessions: Map<u128, SessionInfo>,
    context: ReverseSearchContext,
    id: u128,
)
    ensures
        is_family(sessions, context, id) <==> {
            &&& sessions.contains_key(id)
            &&& forall|set: Set<u128>|
                {
                    &&& #[trigger] set.contains(context.thread_id.value)
                    &&& forall|child: u128| #[trigger]
                        sessions.contains_key(child) ==> (
                        sessions[child].forked_from_id matches Some(parent) ==> set.contains(child)
                            == set.contains(parent.value))
                    &&& context.forked_from_id matches Some(parent) ==> set.contains(parent.value)
                } ==> set.contains(id)
        },
{
    let start = context.thread_id.value;
    if is_family(sessions, context, id) {
        assert forall|set: Set<u128>|
            {
                &&& #[trigger] set.contains(context.thread_id.value)
                &&& forall|child: u128| #[trigger]
                    sessions.contains_key(child) ==> (
                    sessions[child].forked_from_id matches Some(parent) ==> set.contains(child)
                        == set.contains(parent.value))
                &&& context.forked_from_id matches Some(parent) ==> set.contains(parent.value)
            } implies set.contains(id) by {
            law_only_forks_connect(sessions, context, set, start, id);
        }
    } else if sessions.contains_key(id) {
        let set = Set::new(|other: u128| connected(sessions, context, start, other));
        assert(is_way(sessions, context, seq![start], start, start));
        assert(set.contains(start));
        assert forall|child: u128| #[trigger] sessions.contains_key(child) implies (
        sessions[child].forked_from_id matches Some(parent) ==> set.contains(child) == set.contains(
            parent.value,
        )) by {
            if let Some(parent) = sessions[child].forked_from_id {
                law_a_fork_is_connected_with_its_parent(sessions, context, child, parent);
                if set.contains(child) {
                    law_connection_is_transitive(sessions, context, start, child, parent.value);
                }
                if set.contains(parent.value) {
                    law_connection_is_transitive(sessions, context, start, parent.value, child);
                }
            }
        }
        if let Some(parent) = context.forked_from_id {
            law_a_fork_is_connected_with_its_parent(sessions, context, start, parent);
        }
        assert(!set.contains(id));
    }
}

/// A thread of the family brings in the thread that it was forked from and the threads that were
/// forked from it, where they have a session, and the other forks of its parent even where the parent
/// has none.
pub proof fn law_relatives_belong_to_the_family(
    sessions: Map<u128, SessionInfo>,
    context: ReverseSearchContext,
    id: u128,
    parent: ThreadId,
    other: u128,
)
    requires
        sessions.contains_key(id),
        sessions[id].forked_from_id == Some(parent),
    ensures
        sessions.contains_key(parent.value) ==> (is_family(sessions, context, id) <==> is_family(
            sessions,
            context,
            parent.value,
        )),
        sessions.contains_key(other) && sessions[other].forked_from_id == Some(parent) ==> (
        is_family(sessions, context, id) <==> is_family(sessions, context, other)),
        context.forked_from_id == Some(parent) ==> is_family(sessions, context, id),
        context.thread_id == parent ==> is_family(sessions, context, id),
{
    let start = context.thread_id.value;
    law_a_fork_is_connected_with_its_parent(sessions, context, id, parent);
    if connected(sessions, context, start, id) {
        law_connection_is_transitive(sessions, context, start, id, parent.value);
    }
    if connected(sessions, context, start, parent.value) {
        law_connection_is_transitive(sessions, context, start, parent.value, id);
    }
    if sessions.contains_key(other) && sessions[other].forked_from_id == Some(parent) {
        law_a_fork_is_connected_with_its_parent(sessions, context, other, parent);
        if connected(sessions, context, start, other) {
            law_connection_is_transitive(sessions, context, start, other, parent.value);
        }
        if connected(sessions, context, start, parent.value) {
            law_connection_is_transitive(sessions, context, start, parent.value, other);
        }
    }
    if context.forked_from_id == Some(parent) {
        law_a_fork_is_connected_with_its_parent(sessions, context, start, parent);
        law_connection_is_transitive(sessions, context, start, parent.value, id);
    }
}

/// The thread of the context comes before every other thread, and none before it.
pub proof fn law_the_current_thread_precedes_the_others(
    sessions: Map<u128, SessionInfo>,
    context: ReverseSearchContext,
    other: ThreadId,
)
    ensures
        precedes(sessions, context, context.thread_id, other) <==> other != context.thread_id,
        !precedes(sessions, context, other, context.thread_id),
{
}

/// Of two threads other than that of the context, the one whose session was changed more recently
/// comes first; where both were changed at the same time, the one whose id is smaller, as a number and
/// as it is written.
pub proof fn law_the_most_recently_changed_thread_comes_first(
    sessions: Map<u128, SessionInfo>,
    context: ReverseSearchContext,
    a: ThreadId,
    b: ThreadId,
)
    requires
        sessions.contains_key(a.value),
        sessions.contains_key(b.value),
        a != context.thread_id,
        b != context.thread_id,
    ensures
        sessions[a.value].updated_at > sessions[b.value].updated_at ==> precedes(
            sessions,
            context,
            a,
            b,
        ) && !precedes(sessions, context, b, a),
        sessions[a.value].updated_at == sessions[b.value].updated_at ==> {
            &&& precedes(sessions, context, a, b) <==> a.value < b.value
            &&& precedes(sessions, context, a, b) <==> string_less(a.text(), b.text())
        },
{
    law_written_order_is_number_order(a, b);
    law_written_order_is_number_order(b, a);
}

/// The order lists each thread of the family once: that of the context at its head, if it has a
/// session, then the others by when their sessions were changed, the latest first, and by their ids
/// where that was at the same time.
pub proof fn law_the_order_lists_the_family(
    sessions: Map<u128, SessionInfo>,
    context: ReverseSearchContext,
    order: Seq<ThreadId>,
)
    requires
        is_thread_order(sessions, context, order),
    ensures
        forall|id: ThreadId| #[trigger]
            order.contains(id) <==> is_family(sessions, context, id.value),
        order.no_duplicates(),
        forall|i: int, j: int|
            0 <= i < j < order.len() ==> {
                let (a, b) = (#[trigger] order[i], #[trigger] order[j]);
                let (left, right) = (sessions[a.value].updated_at, sessions[b.value].updated_at);
                &&& b != context.thread_id
                &&& a == context.thread_id || left > right || (left == right && a.value < b.value)
            },
{
    assert forall|i: int, j: int| 0 <= i < j < order.len() implies {
        let (a, b) = (#[trigger] order[i], #[trigger] order[j]);
        let (left, right) = (sessions[a.value].updated_at, sessions[b.value].updated_at);
        &&& b != context.thread_id
        &&& a == context.thread_id || left > right || (left == right && a.value < b.value)
    } by {
        let (a, b) = (order[i], order[j]);
        assert(order.contains(a) && order.contains(b));
        assert(precedes(sessions, context, a, b));
        law_the_current_thread_precedes_the_others(sessions, context, a);
        if a != context.thread_id {
            law_the_most_recently_changed_thread_comes_first(sessions, context, a, b);
            law_the_most_recently_changed_thread_comes_first(sessions, context, b, a);
            law_precedence_is_a_strict_order(sessions, context, a, b, a);
        }
    }
    assert forall|i: int, j: int| 0 <= i < j < order.len() implies order[i] != order[j] by {
        law_precedence_is_a_strict_order(sessions, context, order[i], order[j], order[i]);
    }
}

/// The thread of the context is read first if it has a session.
pub proof fn law_current_thread_is_first(
    sessions: Map<u128, SessionInfo>,
    context: ReverseSearchContext,
    order: Seq<ThreadId>,
)
    requires
        is_thread_order(sessions, context, order),
        sessions.contains_key(context.thread_id.value),
    ensures
        order.len() > 0,
        order[0] == context.thread_id,
{
    let id = context.thread_id;
    assert(is_way(sessions, context, seq![id.value], id.value, id.value));
    assert(order.contains(id));
    let i = choose|i: int| 0 <= i < order.len() && order[i] == id;
    if i > 0 {
        assert(precedes(sessions, context, order[0], order[i]));
    }
}

proof fn lemma_reads(m: LoadModel, transcripts: Seq<Seq<RolloutLine>>)
    requires
        m.done == 0,
        m.error is None,
        m.entries.len() == 0,
        transcripts.len() <= m.order.len(),
    ensures
        m.after_reads(good_reads(transcripts)) == (LoadModel {
            done: transcripts.len() as int,
            entries: all_entries(m.order.take(transcripts.len() as int), transcripts),
            ..m
        }),
    decreases transcripts.len(),
{
    let n = transcripts.len() as int;
    if n == 0 {
        assert(m.entries =~= all_entries(m.order.take(0), transcripts));
    } else {
        let rest = transcripts.drop_last();
        lemma_reads(m, rest);
        assert(good_reads(transcripts).drop_last() =~= good_reads(rest));
        assert(m.order.take(n).drop_last() =~= m.order.take(n - 1));
    }
}

proof fn lemma_scanned_is_finite(rollouts: Seq<Rollout>)
    ensures
        scanned(rollouts).dom().finite(),
    decreases rollouts.len(),
{
    if rollouts.len() > 0 {
        lemma_scanned_is_finite(rollouts.drop_last());
    }
}

/// One more rollout leaves the sessions as they are, or makes that of its thread.
proof fn lemma_scanned_with_one_more(rollouts: Seq<Rollout>, i: int, added: Rollout)
    requires
        0 <= i <= rollouts.len(),
    ensures
        ({
            let before = scanned(rollouts);
            let after = scanned(rollouts.insert(i, added));
            ||| after == before
            ||| added.meta matches Some(meta) && after == before.insert(
                meta.id.value,
                session_of(added, meta),
            )
        }),
    decreases rollouts.len(),
{
    let more = rollouts.insert(i, added);
    if i == rollouts.len() {
        assert(more.drop_last() =~= rollouts);
        assert(more.last() == added);
    } else {
        let rest = rollouts.drop_last();
        lemma_scanned_with_one_more(rest, i, added);
        assert(more.drop_last() =~= rest.insert(i, added));
        assert(more.last() == rollouts.last());
        if let Some(meta) = added.meta {
            let session = session_of(added, meta);
            if let Some(last) = rollouts.last().meta {
                let last_session = session_of(rollouts.last(), last);
                if last.id.value == meta.id.value {
                    assert(scanned(rest).insert(meta.id.value, session).insert(
                        last.id.value,
                        last_session,
                    ) =~= scanned(rest).insert(last.id.value, last_session));
                } else {
                    assert(scanned(rest).insert(meta.id.value, session).insert(
                        last.id.value,
                        last_session,
                    ) =~= scanned(rest).insert(last.id.value, last_session).insert(
                        meta.id.value,
                        session,
                    ));
                }
            }
        }
    }
}

/// What is connected with the thread of the context stays so when the session of a thread that is
/// not changes.
proof fn lemma_stays_connected(
    before: Map<u128, SessionInfo>,
    after: Map<u128, SessionInfo>,
    context: ReverseSearchContext,
    thread: u128,
    id: u128,
)
    requires
        forall|other: u128|
            other != thread ==> (#[trigger] before.contains_key(other) <==> after.contains_key(
                other,
            )) && (before.contains_key(other) ==> before[other] == after[other]),
        !connected(before, context, context.thread_id.value, thread),
        connected(before, context, context.thread_id.value, id),
    ensures
        connected(after, context, context.thread_id.value, id),
{
    let start = context.thread_id.value;
    let way = choose|way: Seq<u128>| is_way(before, context, way, start, id);
    assert forall|i: int| 0 <= i < way.len() - 1 implies is_edge(
        after,
        context,
        #[trigger] way[i],
        way[i + 1],
    ) by {
        assert(is_edge(before, context, way[i], way[i + 1]));
        lemma_way_passes(before, context, way, start, id, i);
        lemma_way_passes(before, context, way, start, id, i + 1);
        assert(way[i] != thread && way[i + 1] != thread);
        assert(before.contains_key(way[i]) <==> after.contains_key(way[i]));
        assert(before.contains_key(way[i + 1]) <==> after.contains_key(way[i + 1]));
    }
    assert(is_way(after, context, way, start, id));
}

/// Every thread on a way is connected with that where the way starts.
proof fn lemma_way_passes(
    sessions: Map<u128, SessionInfo>,
    context: ReverseSearchContext,
    way: Seq<u128>,
    a: u128,
    b: u128,
    i: int,
)
    requires
        is_way(sessions, context, way, a, b),
        0 <= i < way.len(),
    ensures
        connected(sessions, context, a, way[i]),
{
    let part = way.take(i + 1);
    assert forall|j: int| 0 <= j < part.len() - 1 implies is_edge(
        sessions,
        context,
        #[trigger] part[j],
        part[j + 1],
    ) by {
        assert(is_edge(sessions, context, way[j], way[j + 1]));
    }
    assert(is_way(sessions, context, part, a, way[i]));
}

/// Threads that are connected stay so when sessions are added.
proof fn lemma_fewer_sessions_connect_less(
    fewer: Map<u128, SessionInfo>,
    more: Map<u128, SessionInfo>,
    context: ReverseSearchContext,
    a: u128,
    b: u128,
)
    requires
        forall|id: u128| #[trigger]
            fewer.contains_key(id) ==> more.contains_key(id) && more[id] == fewer[id],
        connected(fewer, context, a, b),
    ensures
        connected(more, context, a, b),
{
    let way = choose|way: Seq<u128>| is_way(fewer, context, way, a, b);
    assert forall|i: int| 0 <= i < way.len() - 1 implies is_edge(
        more,
        context,
        #[trigger] way[i],
        way[i + 1],
    ) by {
        assert(is_edge(fewer, context, way[i], way[i + 1]));
    }
    assert(is_way(more, context, way, a, b));
}

/// The outcome of a load does not depend on sessions that it does not read.
proof fn lemma_same_reads(
    a: LoadModel,
    b: LoadModel,
    reads: Seq<Result<Seq<RolloutLine>, Seq<char>>>,
)
    requires
        a == (LoadModel { sessions: a.sessions, ..b }),
    ensures
        a.after_reads(reads) == (LoadModel { sessions: a.sessions, ..b.after_reads(reads) }),
        a.after_reads(reads).sessions == a.sessions,
    decreases reads.len(),
{
    if reads.len() > 0 {
        lemma_same_reads(a, b, reads.drop_last());
    }
}

/// Wherever it is found, the rollout of a thread that is not connected with that of the context
/// changes nothing: the same rollouts are read in the same order, with the same outcome. A rollout
/// without metadata changes nothing either.
pub proof fn law_an_unrelated_rollout_changes_nothing(
    rollouts: Seq<Rollout>,
    i: int,
    added: Rollout,
    context: ReverseSearchContext,
    modified: Option<i128>,
    reads: Seq<Result<Seq<RolloutLine>, Seq<char>>>,
)
    requires
        0 <= i <= rollouts.len(),
        added.meta matches Some(meta) ==> {
            let before = LoadModel::started(rollouts, context, modified).sessions;
            let after = LoadModel::started(
                rollouts.insert(i, added),
                context,
                modified,
            ).sessions;
            &&& !connected(after, context, context.thread_id.value, meta.id.value)
            &&& before.contains_key(meta.id.value) ==> !connected(
                before,
                context,
                context.thread_id.value,
                meta.id.value,
            )
        },
    ensures
        ({
            let before = LoadModel::started(rollouts, context, modified);
            let after = LoadModel::started(rollouts.insert(i, added), context, modified);
            &&& after.order == before.order
            &&& forall|k: int|
                0 <= k < before.order.len() ==> after.sessions[(#[trigger] before.order[k]).value]
                    == before.sessions[before.order[k].value]
            &&& after.after_reads(reads).done == before.after_reads(reads).done
            &&& after.after_reads(reads).entries == before.after_reads(reads).entries
            &&& after.after_reads(reads).error == before.after_reads(reads).error
        }),
{
    let before = LoadModel::started(rollouts, context, modified);
    let after = LoadModel::started(rollouts.insert(i, added), context, modified);
    let start = context.thread_id.value;
    lemma_scanned_with_one_more(rollouts, i, added);
    lemma_scanned_is_finite(rollouts);
    law_thread_order_exists(before.sessions, context);
    if after.sessions != before.sessions {
        let meta = added.meta->0;
        let thread = meta.id.value;
        assert(is_way(after.sessions, context, seq![start], start, start));
        assert(thread != start);
        assert forall|other: u128| other != thread implies (
        #[trigger] before.sessions.contains_key(other) <==> after.sessions.contains_key(other)) && (
        before.sessions.contains_key(other) ==> before.sessions[other]
            == after.sessions[other]) by {}
        if !before.sessions.contains_key(thread) && connected(
            before.sessions,
            context,
            start,
            thread,
        ) {
            lemma_fewer_sessions_connect_less(
                before.sessions,
                after.sessions,
                context,
                start,
                thread,
            );
        }
        assert forall|id: ThreadId| is_family(before.sessions, context, id.value)
            <==> #[trigger] is_family(after.sessions, context, id.value) by {
            if is_family(before.sessions, context, id.value) {
                lemma_stays_connected(before.sessions, after.sessions, context, thread, id.value);
            }
            if is_family(after.sessions, context, id.value) {
                lemma_stays_connected(after.sessions, before.sessions, context, thread, id.value);
            }
        }
        assert forall|id: ThreadId| #[trigger] before.order.contains(id) <==> is_family(
            after.sessions,
            context,
            id.value,
        ) by {}
        assert forall|k: int, l: int| 0 <= k < l < before.order.len() implies precedes(
            after.sessions,
            context,
            #[trigger] before.order[k],
            #[trigger] before.order[l],
        ) by {
            assert(before.order.contains(before.order[k]));
            assert(before.order.contains(before.order[l]));
            assert(precedes(before.sessions, context, before.order[k], before.order[l]));
        }
        assert(is_thread_order(after.sessions, context, before.order));
        law_thread_order_is_unique(after.sessions, context, before.order);
        assert forall|k: int| 0 <= k < before.order.len() implies after.sessions[(
        #[trigger] before.order[k]).value] == before.sessions[before.order[k].value] by {
            assert(before.order.contains(before.order[k]));
        }
    }
    lemma_same_reads(after, before, reads);
}

/// A load of which every rollout could be read ends with the entries of all threads of the family,
/// thread by thread.
pub proof fn law_a_load_gives_all_entries(
    rollouts: Seq<Rollout>,
    context: ReverseSearchContext,
    modified: Option<i128>,
    transcripts: Seq<Seq<RolloutLine>>,
)
    requires
        transcripts.len() == LoadModel::started(rollouts, context, modified).order.len(),
    ensures
        ({
            let start = LoadModel::started(rollouts, context, modified);
            let end = start.after_reads(good_reads(transcripts));
            &&& end.is_over()
            &&& end.error is None
            &&& end.entries == all_entries(start.order, transcripts)
        }),
{
    let start = LoadModel::started(rollouts, context, modified);
    lemma_reads(start, transcripts);
    assert(start.order.take(transcripts.len() as int) =~= start.order);
}

proof fn lemma_error_stays(m: LoadModel, reads: Seq<Result<Seq<RolloutLine>, Seq<char>>>)
    requires
        m.error is Some,
    ensures
        m.after_reads(reads) == m,
    decreases reads.len(),
{
    if reads.len() > 0 {
        lemma_error_stays(m, reads.drop_last());
    }
}

proof fn lemma_reads_in_two_parts(
    m: LoadModel,
    left: Seq<Result<Seq<RolloutLine>, Seq<char>>>,
    right: Seq<Result<Seq<RolloutLine>, Seq<char>>>,
)
    ensures
        m.after_reads(left + right) == m.after_reads(left).after_reads(right),
    decreases right.len(),
{
    if right.len() == 0 {
        assert(left + right =~= left);
    } else {
        lemma_reads_in_two_parts(m, left, right.drop_last());
        assert((left + right).drop_last() =~= left + right.drop_last());
    }
}

/// A load is over when a rollout could not be read or all threads of its order have been read, and
/// not before.
pub proof fn law_a_load_is_over_when_all_is_read(m: LoadModel)
    ensures
        m.error is Some ==> m.is_over(),
        m.error is None ==> (m.is_over() <==> m.done >= m.order.len()),
{
}

/// A rollout that was read adds the entries of its thread behind those that are there, all of them
/// and nothing else; one that could not be read only leaves its error. Once the load is over nothing
/// changes any more.
pub proof fn law_each_rollout_adds_its_entries(
    m: LoadModel,
    lines: Seq<RolloutLine>,
    error: Seq<char>,
    read: Result<Seq<RolloutLine>, Seq<char>>,
)
    requires
        m.wf(),
    ensures
        m.error is None && m.done < m.order.len() ==> {
            let after = m.after_read(Ok(lines));
            let added = gathered(lines);
            &&& after == (LoadModel { done: m.done + 1, entries: after.entries, ..m })
            &&& after.entries.len() == m.entries.len() + added.len()
            &&& after.entries.take(m.entries.len() as int) == m.entries
            &&& forall|i: int|
                0 <= i < added.len() ==> after.entries[after.entries.len() - 1 - i] == (EntryModel {
                    thread_id: m.order[m.done],
                    text: (#[trigger] added[i]).text,
                })
            &&& m.after_read(Err(error)) == (LoadModel { error: Some(error), ..m })
        },
        m.error is Some || m.done >= m.order.len() ==> m.after_read(read) == m,
{
    if m.error is None && m.done < m.order.len() {
        let after = m.after_read(Ok(lines));
        assert(after.entries.take(m.entries.len() as int) =~= m.entries);
    }
}

proof fn lemma_all_entries_are_those_of_each_thread(
    order: Seq<ThreadId>,
    transcripts: Seq<Seq<RolloutLine>>,
)
    requires
        order.len() == transcripts.len(),
    ensures
        all_entries(order, transcripts) == Seq::new(
            order.len(),
            |k: int| thread_entries(order[k], transcripts[k]),
        ).flatten(),
    decreases order.len(),
{
    let parts = Seq::new(order.len(), |k: int| thread_entries(order[k], transcripts[k]));
    if order.len() == 0 {
        assert(all_entries(order, transcripts) =~= parts.flatten());
    } else {
        let front = order.drop_last();
        lemma_all_entries_are_those_of_each_thread(front, transcripts.drop_last());
        let front_parts = Seq::new(
            front.len(),
            |k: int| thread_entries(front[k], transcripts.drop_last()[k]),
        );
        assert(parts.drop_last() =~= front_parts);
        parts.lemma_flatten_and_flatten_alt_are_equivalent();
        front_parts.lemma_flatten_and_flatten_alt_are_equivalent();
    }
}

/// A load of which every rollout could be read ends, without an error, with the entries of each
/// thread of the family one after the other, and nothing else.
pub proof fn law_a_load_strings_the_threads_together(
    rollouts: Seq<Rollout>,
    context: ReverseSearchContext,
    modified: Option<i128>,
    transcripts: Seq<Seq<RolloutLine>>,
)
    requires
        transcripts.len() == LoadModel::started(rollouts, context, modified).order.len(),
    ensures
        ({
            let start = LoadModel::started(rollouts, context, modified);
            let reads = Seq::new(
                transcripts.len(),
                |k: int| Ok::<Seq<RolloutLine>, Seq<char>>(transcripts[k]),
            );
            let end = start.after_reads(reads);
            &&& end.error is None
            &&& end.done == start.order.len()
            &&& end.entries == Seq::new(
                start.order.len(),
                |k: int| thread_entries(start.order[k], transcripts[k]),
            ).flatten()
        }),
{
    let start = LoadModel::started(rollouts, context, modified);
    let reads = Seq::new(
        transcripts.len(),
        |k: int| Ok::<Seq<RolloutLine>, Seq<char>>(transcripts[k]),
    );
    assert(reads =~= good_reads(transcripts));
    lemma_reads(start, transcripts);
    assert(start.order.take(transcripts.len() as int) =~= start.order);
    lemma_all_entries_are_those_of_each_thread(start.order, transcripts);
}

/// Reading some rollouts and then others is reading all of them.
pub proof fn law_reads_follow_each_other(
    m: LoadModel,
    reads: Seq<Result<Seq<RolloutLine>, Seq<char>>>,
    read: Result<Seq<RolloutLine>, Seq<char>>,
)
    ensures
        m.after_reads(Seq::empty()) == m,
        m.after_reads(reads.push(read)) == m.after_reads(reads).after_read(read),
{
    assert(reads.push(read).drop_last() =~= reads);
}

/// What is handed to a load is taken as it is: the lines that were read, or the error.
pub proof fn law_a_read_is_taken_as_it_is(lines: Vec<RolloutLine>, error: String)
    ensures
        read_model(Ok(lines)) == Ok::<Seq<RolloutLine>, Seq<char>>(lines@),
        read_model(Err(error)) == Err::<Seq<RolloutLine>, Seq<char>>(error@),
{
}

/// The first rollout of the family that cannot be read fails the load, whatever is read after it.
pub proof fn law_an_unreadable_rollout_fails_the_load(
    rollouts: Seq<Rollout>,
    context: ReverseSearchContext,
    modified: Option<i128>,
    transcripts: Seq<Seq<RolloutLine>>,
    error: Seq<char>,
    later: Seq<Result<Seq<RolloutLine>, Seq<char>>>,
)
    requires
        transcripts.len() < LoadModel::started(rollouts, context, modified).order.len(),
    ensures
        ({
            let start = LoadModel::started(rollouts, context, modified);
            let end = start.after_reads(good_reads(transcripts).push(Err(error)) + later);
            &&& end.is_over()
            &&& end.error == Some(error)
        }),
{
    let start = LoadModel::started(rollouts, context, modified);
    let reads = good_reads(transcripts).push(Err(error));
    lemma_reads(start, transcripts);
    assert(reads.drop_last() =~= good_reads(transcripts));
    lemma_reads_in_two_parts(start, reads, later);
    lemma_error_stays(start.after_reads(reads), later);
}

proof fn lemma_entry_places(order: Seq<ThreadId>, transcripts: Seq<Seq<RolloutLine>>) -> (places: Seq<
    int,
>)
    requires
        order.len() == transcripts.len(),
    ensures
        places.len() == all_entries(order, transcripts).len(),
        forall|k: int|
            0 <= k < places.len() ==> 0 <= #[trigger] places[k] < order.len() && all_entries(
                order,
                transcripts,
            )[k].thread_id == order[places[k]],
        forall|k: int, l: int|
            0 <= k <= l < places.len() ==> #[trigger] places[k] <= #[trigger] places[l],
    decreases order.len(),
{
    if order.len() == 0 {
        Seq::empty()
    } else {
        let n = order.len() - 1;
        let front = lemma_entry_places(order.drop_last(), transcripts.drop_last());
        let last = thread_entries(order.last(), transcripts.last());
        let places = front + Seq::new(last.len(), |i: int| n);
        assert forall|k: int| 0 <= k < places.len() implies 0 <= #[trigger] places[k] < order.len()
            && all_entries(order, transcripts)[k].thread_id == order[places[k]] by {
            if k < front.len() {
                assert(places[k] == front[k]);
                assert(order.drop_last()[front[k]] == order[front[k]]);
            } else {
                assert(all_entries(order, transcripts)[k] == last[k - front.len()]);
            }
        }
        places
    }
}

/// The entries come from threads of the family, those of the current thread first and the others
/// thread by thread, the most recently changed thread first.
pub proof fn law_entries_follow_the_thread_order(
    sessions: Map<u128, SessionInfo>,
    context: ReverseSearchContext,
    order: Seq<ThreadId>,
    transcripts: Seq<Seq<RolloutLine>>,
)
    requires
        is_thread_order(sessions, context, order),
        order.len() == transcripts.len(),
    ensures
        forall|k: int|
            0 <= k < all_entries(order, transcripts).len() ==> is_family(
                sessions,
                context,
                (#[trigger] all_entries(order, transcripts)[k]).thread_id.value,
            ),
        forall|k: int, l: int|
            0 <= k < l < all_entries(order, transcripts).len() ==> {
                let a = (#[trigger] all_entries(order, transcripts)[k]).thread_id;
                let b = (#[trigger] all_entries(order, transcripts)[l]).thread_id;
                a == b || precedes(sessions, context, a, b)
            },
{
    let places = lemma_entry_places(order, transcripts);
    assert forall|k: int| 0 <= k < all_entries(order, transcripts).len() implies is_family(
        sessions,
        context,
        (#[trigger] all_entries(order, transcripts)[k]).thread_id.value,
    ) by {
        assert(order.contains(order[places[k]]));
    }
    assert forall|k: int, l: int| 0 <= k < l < all_entries(order, transcripts).len() implies ({
        let a = (#[trigger] all_entries(order, transcripts)[k]).thread_id;
        let b = (#[trigger] all_entries(order, transcripts)[l]).thread_id;
        a == b || precedes(sessions, context, a, b)
    }) by {
        assert(places[k] <= places[l]);
    }
}

} // verus!
