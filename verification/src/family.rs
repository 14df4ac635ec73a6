//! The threads that are connected by forks.

use crate::load_laws::law_the_order_lists_the_family;
use crate::rollouts::SessionMeta;
use crate::text::string_less;
use crate::thread_id::{law_written_order_is_number_order, ThreadId};
use std::collections::{HashMap, HashSet};
use std::path::PathBuf;
use vstd::prelude::*;

verus! {

broadcast use vstd::std_specs::hash::group_hash_axioms;

/// The thread in which the search was started, the thread that it was forked from, and the rollout
/// that it is recorded in.
#[derive(Debug, PartialEq, Eq)]
pub struct ReverseSearchContext {
    pub thread_id: ThreadId,
    pub forked_from_id: Option<ThreadId>,
    pub rollout_path: Option<PathBuf>,
}

impl Clone for ReverseSearchContext {
    fn clone(&self) -> (copy: Self)
        ensures
            copy == *self,
    {
        ReverseSearchContext {
            thread_id: self.thread_id,
            forked_from_id: self.forked_from_id,
            rollout_path: match &self.rollout_path {
                Some(path) => Some(path.clone()),
                None => None,
            },
        }
    }
}

/// The rollout of a thread, the thread that it was forked from, and when it was last changed, in
/// nanoseconds since the Unix epoch.
#[derive(Debug)]
pub struct SessionInfo {
    pub path: PathBuf,
    pub forked_from_id: Option<ThreadId>,
    pub updated_at: i128,
}

/// A rollout that was found on disk: its path, its session metadata if it has any, and when it was
/// last changed if that is known.
pub struct Rollout {
    pub path: PathBuf,
    pub meta: Option<SessionMeta>,
    pub modified: Option<i128>,
}

/// A time that is not known counts as the Unix epoch.
pub open spec fn time_or_epoch(modified: Option<i128>) -> i128 {
    match modified {
        Some(time) => time,
        None => 0,
    }
}

/// The session that a rollout with this metadata makes.
pub open spec fn session_of(rollout: Rollout, meta: SessionMeta) -> SessionInfo {
    SessionInfo {
        path: rollout.path,
        forked_from_id: meta.forked_from_id,
        updated_at: time_or_epoch(rollout.modified),
    }
}

/// The sessions that some rollouts make, by thread. A rollout without metadata makes none, and of
/// two rollouts of the same thread the later counts.
pub open spec fn scanned(rollouts: Seq<Rollout>) -> Map<u128, SessionInfo>
    decreases rollouts.len(),
{
    if rollouts.len() == 0 {
        Map::empty()
    } else {
        match rollouts.last().meta {
            Some(meta) => scanned(rollouts.drop_last()).insert(
                meta.id.value,
                session_of(rollouts.last(), meta),
            ),
            None => scanned(rollouts.drop_last()),
        }
    }
}

/// The sessions that some rollouts make.
pub fn scan_sessions(rollouts: &Vec<Rollout>) -> (sessions: HashMap<u128, SessionInfo>)
    ensures
        sessions@ == scanned(rollouts@),
{
    let mut sessions: HashMap<u128, SessionInfo> = HashMap::new();
    let mut index: usize = 0;
    while index < rollouts.len()
        invariant
            index <= rollouts@.len(),
            sessions@ == scanned(rollouts@.take(index as int)),
        decreases rollouts@.len() - index,
    {
        assert(rollouts@.take(index + 1).drop_last() =~= rollouts@.take(index as int));
        let rollout: &Rollout = &rollouts[index];
        if let Some(meta) = rollout.meta {
            sessions.insert(
                meta.id.value,
                SessionInfo {
                    path: rollout.path.clone(),
                    forked_from_id: meta.forked_from_id,
                    updated_at: rollout.modified.unwrap_or(0),
                },
            );
        }
        index = index + 1;
    }
    assert(rollouts@.take(index as int) =~= rollouts@);
    sessions
}

/// The sessions with that of the context, if it is missing there and its rollout is known.
pub open spec fn seeded(
    sessions: Map<u128, SessionInfo>,
    context: ReverseSearchContext,
    modified: Option<i128>,
) -> Map<u128, SessionInfo> {
    match context.rollout_path {
        Some(path) if !sessions.contains_key(context.thread_id.value) => sessions.insert(
            context.thread_id.value,
            SessionInfo {
                path,
                forked_from_id: context.forked_from_id,
                updated_at: time_or_epoch(modified),
            },
        ),
        _ => sessions,
    }
}

/// Adds the session of the context if it is missing and its rollout is known; `modified` is when
/// that rollout was last changed.
pub fn seed_active_thread_context(
    sessions: &mut HashMap<u128, SessionInfo>,
    context: &ReverseSearchContext,
    modified: Option<i128>,
)
    ensures
        final(sessions)@ == seeded(old(sessions)@, *context, modified),
{
    if sessions.contains_key(&context.thread_id.value) {
        return ;
    }
    if let Some(path) = context.rollout_path.as_ref() {
        sessions.insert(
            context.thread_id.value,
            SessionInfo {
                path: path.clone(),
                forked_from_id: context.forked_from_id,
                updated_at: modified.unwrap_or(0),
            },
        );
    }
}

/// One thread was forked from the other.
pub open spec fn is_fork(
    sessions: Map<u128, SessionInfo>,
    context: ReverseSearchContext,
    child: u128,
    parent: u128,
) -> bool {
    ||| sessions.contains_key(child) && sessions[child].forked_from_id == Some(
        ThreadId { value: parent },
    )
    ||| context.thread_id.value == child && context.forked_from_id == Some(
        ThreadId { value: parent },
    )
}

/// One of the two threads was forked from the other.
pub open spec fn is_edge(
    sessions: Map<u128, SessionInfo>,
    context: ReverseSearchContext,
    a: u128,
    b: u128,
) -> bool {
    is_fork(sessions, context, a, b) || is_fork(sessions, context, b, a)
}

/// A way from one thread to another along forks, in either direction.
pub open spec fn is_way(
    sessions: Map<u128, SessionInfo>,
    context: ReverseSearchContext,
    way: Seq<u128>,
    a: u128,
    b: u128,
) -> bool {
    &&& way.len() > 0
    &&& way.first() == a
    &&& way.last() == b
    &&& forall|i: int|
        0 <= i < way.len() - 1 ==> is_edge(sessions, context, #[trigger] way[i], way[i + 1])
}

/// There is a way from one thread to the other. It may lead through threads without a session.
pub open spec fn connected(
    sessions: Map<u128, SessionInfo>,
    context: ReverseSearchContext,
    a: u128,
    b: u128,
) -> bool {
    exists|way: Seq<u128>| is_way(sessions, context, way, a, b)
}

/// The threads that have a session and are connected with the thread of the context.
pub open spec fn is_family(
    sessions: Map<u128, SessionInfo>,
    context: ReverseSearchContext,
    id: u128,
) -> bool {
    sessions.contains_key(id) && connected(sessions, context, context.thread_id.value, id)
}

proof fn lemma_connected_step(
    sessions: Map<u128, SessionInfo>,
    context: ReverseSearchContext,
    a: u128,
    b: u128,
    c: u128,
)
    requires
        connected(sessions, context, a, b),
        is_edge(sessions, context, b, c),
    ensures
        connected(sessions, context, a, c),
{
    let way = choose|way: Seq<u128>| is_way(sessions, context, way, a, b);
    let longer = way.push(c);
    assert forall|i: int| 0 <= i < longer.len() - 1 implies is_edge(
        sessions,
        context,
        #[trigger] longer[i],
        longer[i + 1],
    ) by {
        if i < way.len() - 1 {
            assert(longer[i] == way[i] && longer[i + 1] == way[i + 1]);
        }
    }
    assert(is_way(sessions, context, longer, a, c));
}

proof fn lemma_connected_self(
    sessions: Map<u128, SessionInfo>,
    context: ReverseSearchContext,
    a: u128,
)
    ensures
        connected(sessions, context, a, a),
{
    assert(is_way(sessions, context, seq![a], a, a));
}

/// A set that holds a thread and, with each thread, its neighbours, holds all that is connected
/// with it.
pub proof fn lemma_closed_set_holds_connected(
    sessions: Map<u128, SessionInfo>,
    context: ReverseSearchContext,
    set: Set<u128>,
    a: u128,
    b: u128,
)
    requires
        set.contains(a),
        forall|x: u128, y: u128|
            #![trigger set.contains(x), is_edge(sessions, context, x, y)]
            set.contains(x) && is_edge(sessions, context, x, y) ==> set.contains(y),
        connected(sessions, context, a, b),
    ensures
        set.contains(b),
{
    let way = choose|way: Seq<u128>| is_way(sessions, context, way, a, b);
    lemma_way_stays_in_closed_set(sessions, context, set, way, a, b, way.len() - 1);
}

proof fn lemma_way_stays_in_closed_set(
    sessions: Map<u128, SessionInfo>,
    context: ReverseSearchContext,
    set: Set<u128>,
    way: Seq<u128>,
    a: u128,
    b: u128,
    i: int,
)
    requires
        set.contains(a),
        forall|x: u128, y: u128|
            #![trigger set.contains(x), is_edge(sessions, context, x, y)]
            set.contains(x) && is_edge(sessions, context, x, y) ==> set.contains(y),
        is_way(sessions, context, way, a, b),
        0 <= i < way.len(),
    ensures
        set.contains(way[i]),
    decreases i,
{
    if i > 0 {
        lemma_way_stays_in_closed_set(sessions, context, set, way, a, b, i - 1);
        assert(is_edge(sessions, context, way[i - 1], way[i]));
    }
}

/// `b` is in the list of the neighbours of `a`.
spec fn is_linked(edges: Map<u128, Vec<u128>>, a: u128, b: u128) -> bool {
    edges.contains_key(a) && edges[a]@.contains(b)
}

/// The two threads are a session's thread and the one that it was forked from, in either order.
spec fn joins(id: u128, session: SessionInfo, a: u128, b: u128) -> bool {
    match session.forked_from_id {
        Some(parent) => (a == id && b == parent.value) || (a == parent.value && b == id),
        None => false,
    }
}

/// Puts `b` in the list of the neighbours of `a`.
fn link(edges: &mut HashMap<u128, Vec<u128>>, a: u128, b: u128)
    ensures
        forall|x: u128, y: u128| #[trigger]
            is_linked(final(edges)@, x, y) <==> is_linked(old(edges)@, x, y) || (x == a && y == b),
{
    let ghost before = if edges@.contains_key(a) {
        edges@[a]@
    } else {
        Seq::empty()
    };
    let neighbours: &mut Vec<u128> = edges.entry(a).or_insert(Vec::new());
    neighbours.push(b);
    proof {
        assert(edges@[a]@ =~= before.push(b));
        assert forall|x: u128, y: u128| #[trigger] is_linked(edges@, x, y) <==> is_linked(
            old(edges)@,
            x,
            y,
        ) || (x == a && y == b) by {
            if x == a {
                if before.contains(y) {
                    let i = choose|i: int| 0 <= i < before.len() && before[i] == y;
                    assert(before.push(b)[i] == y);
                }
                if y == b {
                    assert(before.push(b)[before.len() as int] == b);
                }
            }
        }
    }
}

/// The neighbours of each thread.
fn fork_edges(sessions: &HashMap<u128, SessionInfo>, context: &ReverseSearchContext) -> (edges:
    HashMap<u128, Vec<u128>>)
    ensures
        forall|x: u128, y: u128| #[trigger]
            is_linked(edges@, x, y) <==> is_edge(sessions@, *context, x, y),
{
    let mut edges: HashMap<u128, Vec<u128>> = HashMap::new();
    for pair in it: sessions.iter()
        invariant
            forall|x: u128, y: u128| #[trigger]
                is_linked(edges@, x, y) <==> exists|i: int|
                    0 <= i < it.index() && joins(
                        *(#[trigger] it.seq()[i]).0,
                        *it.seq()[i].1,
                        x,
                        y,
                    ),
    {
        let (id, session) = pair;
        if let Some(parent) = session.forked_from_id {
            link(&mut edges, *id, parent.value);
            link(&mut edges, parent.value, *id);
        }
    }
    if let Some(parent) = context.forked_from_id {
        link(&mut edges, context.thread_id.value, parent.value);
        link(&mut edges, parent.value, context.thread_id.value);
    }
    edges
}

/// The threads that have a session and are connected with the thread of the context.
pub fn connected_family_ids(
    sessions: &HashMap<u128, SessionInfo>,
    context: &ReverseSearchContext,
) -> (family: HashSet<u128>)
    ensures
        forall|id: u128| #[trigger]
            family@.contains(id) <==> is_family(sessions@, *context, id),
        forall|id: u128| #[trigger] family@.contains(id) ==> sessions@.contains_key(id),
        family@.contains(context.thread_id.value) <==> sessions@.contains_key(
            context.thread_id.value,
        ),
        forall|id: u128|
            sessions@.contains_key(id) ==> ((#[trigger] sessions@[id]).forked_from_id matches Some(
                parent,
            ) ==> sessions@.contains_key(parent.value) ==> (family@.contains(id)
                <==> family@.contains(parent.value))),
{
    let edges: HashMap<u128, Vec<u128>> = fork_edges(sessions, context);
    let start: u128 = context.thread_id.value;
    let mut visited: HashSet<u128> = HashSet::new();
    let mut family: HashSet<u128> = HashSet::new();
    let mut pending: Vec<u128> = Vec::new();
    pending.push(start);
    let ghost universe = edges@.dom().insert(start);
    proof {
        lemma_connected_self(sessions@, *context, start);
        assert(pending@[0] == start);
    }
    while pending.len() > 0
        invariant
            start == context.thread_id.value,
            universe == edges@.dom().insert(start),
            universe.finite(),
            visited@.finite(),
            forall|x: u128, y: u128| #[trigger]
                is_linked(edges@, x, y) <==> is_edge(sessions@, *context, x, y),
            forall|i: int|
                0 <= i < pending@.len() ==> universe.contains(#[trigger] pending@[i]) && connected(
                    sessions@,
                    *context,
                    start,
                    pending@[i],
                ),
            forall|x: u128| #[trigger]
                visited@.contains(x) ==> universe.contains(x) && connected(
                    sessions@,
                    *context,
                    start,
                    x,
                ),
            visited@.contains(start) || pending@.contains(start),
            forall|x: u128, y: u128|
                #![trigger visited@.contains(x), is_edge(sessions@, *context, x, y)]
                visited@.contains(x) && is_edge(sessions@, *context, x, y) ==> visited@.contains(y)
                    || pending@.contains(y),
            forall|x: u128| #[trigger]
                family@.contains(x) <==> visited@.contains(x) && sessions@.contains_key(x),
        decreases universe.difference(visited@).len(), pending@.len(),
    {
        let ghost before = pending@;
        let ghost visited_before = visited@;
        let id: u128 = pending.pop().unwrap();
        proof {
            assert(before == pending@.push(id));
            assert forall|y: u128| before.contains(y) implies y == id || pending@.contains(y) by {
                let i = choose|i: int| 0 <= i < before.len() && before[i] == y;
                if i < pending@.len() {
                    assert(pending@[i] == y);
                }
            }
            assert(before[before.len() - 1] == id);
        }
        if visited.insert(id) {
            if sessions.contains_key(&id) {
                family.insert(id);
            }
            let ghost rest = pending@;
            if let Some(neighbours) = edges.get(&id) {
                pending.extend_from_slice(neighbours.as_slice());
                proof {
                    assert(pending@ =~= rest + neighbours@);
                    assert forall|i: int| 0 <= i < pending@.len() implies universe.contains(
                        #[trigger] pending@[i],
                    ) && connected(sessions@, *context, start, pending@[i]) by {
                        if i < rest.len() {
                            assert(pending@[i] == before[i]);
                        } else {
                            let y = pending@[i];
                            assert(neighbours@[i - rest.len()] == y);
                            assert(is_linked(edges@, id, y));
                            assert(is_linked(edges@, y, id));
                            lemma_connected_step(sessions@, *context, start, id, y);
                        }
                    }
                    assert forall|y: u128| is_edge(sessions@, *context, id, y) implies pending@.contains(
                        y,
                    ) by {
                        assert(is_linked(edges@, id, y));
                        let i = choose|i: int| 0 <= i < neighbours@.len() && neighbours@[i] == y;
                        assert(pending@[rest.len() + i] == y);
                    }
                    assert forall|y: u128| rest.contains(y) implies pending@.contains(y) by {
                        let i = choose|i: int| 0 <= i < rest.len() && rest[i] == y;
                        assert(pending@[i] == y);
                    }
                }
            } else {
                proof {
                    assert forall|y: u128| !is_edge(sessions@, *context, id, y) by {
                        assert(!is_linked(edges@, id, y));
                    }
                }
            }
            proof {
                let left = universe.difference(visited_before);
                assert(universe.difference(visited@) =~= left.remove(id));
                assert(left.contains(id));
            }
        } else {
            assert(visited@ =~= visited_before);
        }
    }
    proof {
        assert forall|id: u128| #[trigger] family@.contains(id) <==> is_family(
            sessions@,
            *context,
            id,
        ) by {
            if is_family(sessions@, *context, id) {
                lemma_closed_set_holds_connected(sessions@, *context, visited@, start, id);
            }
        }
        assert forall|id: u128|
            sessions@.contains_key(id) implies ((#[trigger] sessions@[id]).forked_from_id matches Some(
            parent,
        ) ==> sessions@.contains_key(parent.value) ==> (family@.contains(id) <==> family@.contains(
            parent.value,
        ))) by {
            if let Some(parent) = sessions@[id].forked_from_id {
                assert(is_edge(sessions@, *context, id, parent.value));
                assert(is_edge(sessions@, *context, parent.value, id));
            }
        }
    }
    family
}

/// When the session of a thread was last changed.
pub open spec fn update_time(sessions: Map<u128, SessionInfo>, id: u128) -> i128 {
    if sessions.contains_key(id) {
        sessions[id].updated_at
    } else {
        0
    }
}

/// The thread that was changed more recently comes first; of two that were changed at the same time,
/// the one whose id is written smaller.
pub open spec fn is_listed_before(sessions: Map<u128, SessionInfo>, a: u128, b: u128) -> bool {
    ||| update_time(sessions, a) > update_time(sessions, b)
    ||| update_time(sessions, a) == update_time(sessions, b) && string_less(
        ThreadId { value: a }.text(),
        ThreadId { value: b }.text(),
    )
}

/// The thread of the context comes first, then the others by their sessions.
pub open spec fn precedes(
    sessions: Map<u128, SessionInfo>,
    context: ReverseSearchContext,
    a: ThreadId,
    b: ThreadId,
) -> bool {
    &&& b != context.thread_id
    &&& a == context.thread_id || is_listed_before(sessions, a.value, b.value)
}

/// The family in order.
pub open spec fn is_thread_order(
    sessions: Map<u128, SessionInfo>,
    context: ReverseSearchContext,
    order: Seq<ThreadId>,
) -> bool {
    &&& forall|id: ThreadId| #[trigger]
        order.contains(id) <==> is_family(sessions, context, id.value)
    &&& forall|i: int, j: int|
        0 <= i < j < order.len() ==> precedes(
            sessions,
            context,
            #[trigger] order[i],
            #[trigger] order[j],
        )
}

/// The family in the order in which it is searched.
pub open spec fn thread_order(
    sessions: Map<u128, SessionInfo>,
    context: ReverseSearchContext,
) -> Seq<ThreadId> {
    choose|order: Seq<ThreadId>| is_thread_order(sessions, context, order)
}

proof fn lemma_listed_by_number(sessions: Map<u128, SessionInfo>, a: u128, b: u128)
    ensures
        is_listed_before(sessions, a, b) <==> {
            ||| update_time(sessions, a) > update_time(sessions, b)
            ||| update_time(sessions, a) == update_time(sessions, b) && a < b
        },
{
    law_written_order_is_number_order(ThreadId { value: a }, ThreadId { value: b });
}

/// Which of two threads comes first is never open, and never both.
pub proof fn law_precedence_is_a_strict_order(
    sessions: Map<u128, SessionInfo>,
    context: ReverseSearchContext,
    a: ThreadId,
    b: ThreadId,
    c: ThreadId,
)
    ensures
        !precedes(sessions, context, a, a),
        precedes(sessions, context, a, b) ==> !precedes(sessions, context, b, a),
        a != b ==> precedes(sessions, context, a, b) || precedes(sessions, context, b, a),
        precedes(sessions, context, a, b) && precedes(sessions, context, b, c) ==> precedes(
            sessions,
            context,
            a,
            c,
        ),
{
    lemma_listed_by_number(sessions, a.value, a.value);
    lemma_listed_by_number(sessions, a.value, b.value);
    lemma_listed_by_number(sessions, b.value, a.value);
    lemma_listed_by_number(sessions, b.value, c.value);
    lemma_listed_by_number(sessions, a.value, c.value);
}

#[verifier::spinoff_prover]
proof fn lemma_orders_agree(
    sessions: Map<u128, SessionInfo>,
    context: ReverseSearchContext,
    left: Seq<ThreadId>,
    right: Seq<ThreadId>,
    n: int,
)
    requires
        is_thread_order(sessions, context, left),
        is_thread_order(sessions, context, right),
        0 <= n <= left.len(),
    ensures
        n <= right.len(),
        left.take(n) == right.take(n),
    decreases n,
{
    if n > 0 {
        let i = n - 1;
        lemma_orders_agree(sessions, context, left, right, i);
        let a = left[i];
        assert(0 <= i < left.len() && left[i] == a);
        assert(left.contains(a));
        assert(is_family(sessions, context, a.value));
        assert(right.contains(a));
        let k = choose|k: int| 0 <= k < right.len() && right[k] == a;
        law_precedence_is_a_strict_order(sessions, context, a, a, a);
        if k < i {
            assert(left.take(i)[k] == right.take(i)[k]);
            assert(left[k] == a);
        }
        assert(k >= i);
        let b = right[i];
        if a != b {
            assert(precedes(sessions, context, b, a));
            assert(0 <= i < right.len() && right[i] == b);
            assert(right.contains(b));
            assert(is_family(sessions, context, b.value));
            assert(left.contains(b));
            let m = choose|m: int| 0 <= m < left.len() && left[m] == b;
            if m < i {
                assert(left.take(i)[m] == right.take(i)[m]);
                assert(right[m] == b);
                law_precedence_is_a_strict_order(sessions, context, b, b, b);
            }
            assert(precedes(sessions, context, a, b));
            law_precedence_is_a_strict_order(sessions, context, a, b, a);
        }
        assert(left.take(n) =~= left.take(i).push(a));
        assert(right.take(n) =~= right.take(i).push(b));
    }
}

/// There is only one order in which the family can be searched: it does not depend on the order in
/// which the sessions were found.
pub proof fn law_thread_order_is_unique(
    sessions: Map<u128, SessionInfo>,
    context: ReverseSearchContext,
    order: Seq<ThreadId>,
)
    requires
        is_thread_order(sessions, context, order),
    ensures
        order == thread_order(sessions, context),
{
    let other = thread_order(sessions, context);
    lemma_orders_agree(sessions, context, order, other, order.len() as int);
    lemma_orders_agree(sessions, context, other, order, other.len() as int);
    assert(order.take(order.len() as int) =~= order);
    assert(other.take(other.len() as int) =~= other);
}

/// Every family can be put in order.
pub proof fn law_thread_order_exists(
    sessions: Map<u128, SessionInfo>,
    context: ReverseSearchContext,
)
    requires
        sessions.dom().finite(),
    ensures
        is_thread_order(sessions, context, thread_order(sessions, context)),
{
    broadcast use vstd::seq_lib::group_to_multiset_ensures;

    let to_id = |value: u128| ThreadId { value };
    let ids = sessions.dom().map(to_id);
    let family = Set::new(|id: ThreadId| is_family(sessions, context, id.value));
    sessions.dom().lemma_map_finite(to_id);
    assert forall|id: ThreadId| #[trigger] family.contains(id) implies ids.contains(id) by {
        assert(sessions.dom().contains(id.value) && to_id(id.value) == id);
    }
    vstd::set_lib::lemma_set_subset_finite(ids, family);
    let listed = family.to_seq();
    lemma_listing_has_no_duplicates(family);
    family.lemma_to_seq_to_set_id();
    let leq = |a: ThreadId, b: ThreadId| a == b || precedes(sessions, context, a, b);
    assert forall|a: ThreadId, b: ThreadId| #[trigger] leq(a, b) && #[trigger] leq(
        b,
        a,
    ) implies a == b by {
        law_precedence_is_a_strict_order(sessions, context, a, b, a);
    }
    assert forall|a: ThreadId, b: ThreadId, c: ThreadId| #[trigger] leq(a, b) && #[trigger] leq(
        b,
        c,
    ) implies leq(a, c) by {
        law_precedence_is_a_strict_order(sessions, context, a, b, c);
    }
    assert forall|a: ThreadId, b: ThreadId| #[trigger] leq(a, b) || leq(b, a) by {
        law_precedence_is_a_strict_order(sessions, context, a, b, a);
    }
    assert(vstd::relations::total_ordering(leq));
    listed.lemma_sort_by_ensures(leq);
    let order = listed.sort_by(leq);
    listed.lemma_multiset_has_no_duplicates();
    order.lemma_multiset_has_no_duplicates_conv();
    assert forall|id: ThreadId| #[trigger] order.contains(id) <==> is_family(
        sessions,
        context,
        id.value,
    ) by {
        assert(order.contains(id) <==> order.to_multiset().count(id) > 0);
        assert(listed.contains(id) <==> listed.to_multiset().count(id) > 0);
        assert(listed.to_set().contains(id) <==> family.contains(id));
    }
    assert forall|i: int, j: int| 0 <= i < j < order.len() implies precedes(
        sessions,
        context,
        #[trigger] order[i],
        #[trigger] order[j],
    ) by {
        assert(leq(order[i], order[j]));
        assert(order[i] != order[j]);
    }
    assert(is_thread_order(sessions, context, order));
}

proof fn lemma_listing_has_no_duplicates(set: Set<ThreadId>)
    requires
        set.finite(),
    ensures
        set.to_seq().no_duplicates(),
    decreases set.len(),
{
    if set.len() > 0 {
        let first = set.choose();
        let rest = set.remove(first);
        lemma_listing_has_no_duplicates(rest);
        rest.lemma_to_seq_to_set_id();
        assert(set.to_seq() =~= seq![first] + rest.to_seq());
        assert(!rest.to_seq().contains(first)) by {
            if rest.to_seq().contains(first) {
                assert(rest.to_seq().to_set().contains(first));
            }
        }
    }
}

/// Whether one of two other threads of the family comes before the other.
fn comes_before(sessions: &HashMap<u128, SessionInfo>, a: u128, b: u128) -> (before: bool)
    ensures
        before == is_listed_before(sessions@, a, b),
{
    let left: i128 = match sessions.get(&a) {
        Some(session) => session.updated_at,
        None => 0,
    };
    let right: i128 = match sessions.get(&b) {
        Some(session) => session.updated_at,
        None => 0,
    };
    proof {
        lemma_listed_by_number(sessions@, a, b);
    }
    left > right || (left == right && a < b)
}

/// Puts a thread where it belongs among others that are in order.
fn insert_in_order(sessions: &HashMap<u128, SessionInfo>, others: &mut Vec<ThreadId>, id: ThreadId)
    requires
        !old(others)@.contains(id),
        forall|i: int, j: int|
            0 <= i < j < old(others)@.len() ==> is_listed_before(
                sessions@,
                (#[trigger] old(others)@[i]).value,
                (#[trigger] old(others)@[j]).value,
            ),
    ensures
        forall|other: ThreadId| #[trigger]
            final(others)@.contains(other) <==> old(others)@.contains(other) || other == id,
        forall|i: int, j: int|
            0 <= i < j < final(others)@.len() ==> is_listed_before(
                sessions@,
                (#[trigger] final(others)@[i]).value,
                (#[trigger] final(others)@[j]).value,
            ),
{
    let mut place: usize = 0;
    while place < others.len() && comes_before(sessions, others[place].value, id.value)
        invariant
            place <= others@.len(),
            others@ == old(others)@,
            forall|i: int|
                0 <= i < place ==> is_listed_before(
                    sessions@,
                    (#[trigger] others@[i]).value,
                    id.value,
                ),
        decreases others@.len() - place,
    {
        place = place + 1;
    }
    let ghost before = others@;
    proof {
        assert forall|i: int| place <= i < before.len() implies is_listed_before(
            sessions@,
            id.value,
            (#[trigger] before[i]).value,
        ) by {
            let next = before[place as int].value;
            assert(before.contains(before[place as int]));
            lemma_listed_by_number(sessions@, next, id.value);
            lemma_listed_by_number(sessions@, id.value, before[i].value);
            lemma_listed_by_number(sessions@, next, before[i].value);
        }
    }
    others.insert(place, id);
    proof {
        assert(others@ =~= before.insert(place as int, id));
        assert forall|i: int, j: int| 0 <= i < j < others@.len() implies is_listed_before(
            sessions@,
            (#[trigger] others@[i]).value,
            (#[trigger] others@[j]).value,
        ) by {
            let a = if i < place {
                i
            } else {
                i - 1
            };
            let b = if j < place {
                j
            } else {
                j - 1
            };
            if i != place {
                assert(others@[i] == before[a]);
            }
            if j != place {
                assert(others@[j] == before[b]);
            }
        }
        assert forall|other: ThreadId| #[trigger] others@.contains(other) <==> before.contains(
            other,
        ) || other == id by {
            if before.contains(other) {
                let i = choose|i: int| 0 <= i < before.len() && before[i] == other;
                if i < place {
                    assert(others@[i] == other);
                } else {
                    assert(others@[i + 1] == other);
                }
            }
            if other == id {
                assert(others@[place as int] == id);
            }
            if others@.contains(other) {
                let i = choose|i: int| 0 <= i < others@.len() && others@[i] == other;
                if i < place {
                    assert(before[i] == other);
                } else if i > place {
                    assert(before[i - 1] == other);
                }
            }
        }
    }
}

/// The threads to search, in order: the thread of the context, if it has a session, then the others
/// of its family, the most recently changed first.
pub fn ordered_family(sessions: &HashMap<u128, SessionInfo>, context: &ReverseSearchContext) -> (order:
    Vec<ThreadId>)
    ensures
        order@ == thread_order(sessions@, *context),
        is_thread_order(sessions@, *context, order@),
        forall|id: ThreadId| #[trigger]
            order@.contains(id) <==> is_family(sessions@, *context, id.value),
        order@.no_duplicates(),
        forall|i: int, j: int|
            0 <= i < j < order@.len() ==> {
                let (a, b) = (#[trigger] order@[i], #[trigger] order@[j]);
                let (left, right) = (sessions@[a.value].updated_at, sessions@[b.value].updated_at);
                &&& b != context.thread_id
                &&& a == context.thread_id || left > right || (left == right && a.value < b.value)
            },
{
    let family: HashSet<u128> = connected_family_ids(sessions, context);
    let mut others: Vec<ThreadId> = Vec::new();
    let ghost listed = vstd::std_specs::iter::IteratorSpec::remaining(&family.iter());
    proof {
        assert forall|id: u128| family@.contains(id) implies exists|i: int|
            0 <= i < listed.len() && *(#[trigger] listed[i]) == id by {
            assert(listed.unref().to_set().contains(id));
            let i = choose|i: int| 0 <= i < listed.unref().len() && listed.unref()[i] == id;
            assert(*listed[i] == id);
        }
        assert forall|i: int| 0 <= i < listed.len() implies family@.contains(
            *(#[trigger] listed[i]),
        ) by {
            assert(listed.unref()[i] == *listed[i]);
            assert(listed.unref().to_set().contains(*listed[i]));
        }
    }
    for id in it: family.iter()
        invariant
            it.seq() == listed,
            forall|i: int, j: int|
                0 <= i < j < others@.len() ==> is_listed_before(
                    sessions@,
                    (#[trigger] others@[i]).value,
                    (#[trigger] others@[j]).value,
                ),
            forall|id: ThreadId| #[trigger]
                others@.contains(id) <==> id != context.thread_id && exists|i: int|
                    0 <= i < it.index() && *(#[trigger] it.seq()[i]) == id.value,
            it.seq().no_duplicates(),
    {
        let id: ThreadId = ThreadId { value: *id };
        if id != context.thread_id {
            insert_in_order(sessions, &mut others, id);
        }
    }
    let mut order: Vec<ThreadId> = Vec::new();
    if family.contains(&context.thread_id.value) {
        order.push(context.thread_id);
    }
    let ghost first = order@;
    let ghost rest = others@;
    order.append(&mut others);
    proof {
        assert(order@ =~= first + rest);
        assert forall|id: ThreadId| #[trigger] order@.contains(id) <==> is_family(
            sessions@,
            *context,
            id.value,
        ) by {
            if id == context.thread_id {
                if family@.contains(id.value) {
                    assert(order@[0] == id);
                } else if order@.contains(id) {
                    assert(rest.contains(id));
                }
            } else {
                if order@.contains(id) {
                    let i = choose|i: int| 0 <= i < order@.len() && order@[i] == id;
                    assert(rest[i - first.len()] == id);
                    assert(rest.contains(id));
                }
                if rest.contains(id) {
                    let i = choose|i: int| 0 <= i < rest.len() && rest[i] == id;
                    assert(order@[first.len() + i] == id);
                }
                assert(family@.contains(id.value) <==> rest.contains(id));
            }
        }
        assert forall|i: int, j: int| 0 <= i < j < order@.len() implies precedes(
            sessions@,
            *context,
            #[trigger] order@[i],
            #[trigger] order@[j],
        ) by {
            assert(rest.contains(rest[j - first.len()]));
            if i >= first.len() {
                assert(order@[i] == rest[i - first.len()]);
            }
        }
        law_thread_order_is_unique(sessions@, *context, order@);
        law_the_order_lists_the_family(sessions@, *context, order@);
    }
    order
}

} // verus!
