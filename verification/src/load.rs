//! The loading of the entries that a reverse search searches.

use crate::entries::{entry_models, EntryModel, ReverseSearchEntry};
use crate::family::{
    is_thread_order, ordered_family, scan_sessions, scanned, seed_active_thread_context, seeded,
    thread_order, ReverseSearchContext, Rollout, SessionInfo,
};
use crate::messages::{read_thread_user_messages, thread_entries, RolloutLine};
use crate::thread_id::ThreadId;
use std::collections::HashMap;
use std::path::PathBuf;
use vstd::prelude::*;

verus! {

broadcast use vstd::std_specs::hash::group_hash_axioms;

/// A load that is under way: the sessions, the threads in the order in which their rollouts are
/// read, how many have been read, the entries so far, and why a rollout could not be read.
pub struct ReverseSearchLoad {
    sessions: HashMap<u128, SessionInfo>,
    order: Vec<ThreadId>,
    done: usize,
    entries: Vec<ReverseSearchEntry>,
    error: Option<String>,
}

/// A load that is under way, as plain values.
#[verifier::ext_equal]
pub struct LoadModel {
    pub sessions: Map<u128, SessionInfo>,
    pub order: Seq<ThreadId>,
    pub done: int,
    pub entries: Seq<EntryModel>,
    pub error: Option<Seq<char>>,
}

impl View for ReverseSearchLoad {
    type V = LoadModel;

    closed spec fn view(&self) -> LoadModel {
        LoadModel {
            sessions: self.sessions@,
            order: self.order@,
            done: self.done as int,
            entries: entry_models(self.entries@),
            error: match self.error {
                Some(error) => Some(error@),
                None => None,
            },
        }
    }
}

/// The lines of a rollout, or why they could not be read, as plain values.
pub open spec fn read_model(read: Result<Vec<RolloutLine>, String>) -> Result<
    Seq<RolloutLine>,
    Seq<char>,
> {
    match read {
        Ok(lines) => Ok(lines@),
        Err(error) => Err(error@),
    }
}

impl LoadModel {
    /// A load that has just started.
    pub open spec fn started(
        rollouts: Seq<Rollout>,
        context: ReverseSearchContext,
        modified: Option<i128>,
    ) -> LoadModel {
        let sessions = seeded(scanned(rollouts), context, modified);
        LoadModel {
            sessions,
            order: thread_order(sessions, context),
            done: 0,
            entries: Seq::empty(),
            error: None,
        }
    }

    /// Every thread that is to be read has a session.
    pub open spec fn wf(self) -> bool {
        &&& 0 <= self.done <= self.order.len()
        &&& forall|i: int|
            0 <= i < self.order.len() ==> self.sessions.contains_key(
                (#[trigger] self.order[i]).value,
            )
    }

    /// There is nothing more to read.
    pub open spec fn is_over(self) -> bool {
        self.error is Some || self.done >= self.order.len()
    }

    /// The load after the next rollout was read, or could not be.
    pub open spec fn after_read(self, read: Result<Seq<RolloutLine>, Seq<char>>) -> LoadModel {
        if self.is_over() {
            self
        } else {
            match read {
                Ok(lines) => LoadModel {
                    done: self.done + 1,
                    entries: self.entries + thread_entries(self.order[self.done], lines),
                    ..self
                },
                Err(error) => LoadModel { error: Some(error), ..self },
            }
        }
    }

    /// The load after some rollouts were read, or could not be.
    pub open spec fn after_reads(
        self,
        reads: Seq<Result<Seq<RolloutLine>, Seq<char>>>,
    ) -> LoadModel
        decreases reads.len(),
    {
        if reads.len() == 0 {
            self
        } else {
            self.after_reads(reads.drop_last()).after_read(reads.last())
        }
    }
}

impl ReverseSearchLoad {
    #[verifier::type_invariant]
    spec fn inv(self) -> bool {
        self@.wf()
    }

    /// Starts a load from the rollouts that were found; `modified` is when the rollout of the context
    /// was last changed, if that is known.
    pub fn start(
        rollouts: &Vec<Rollout>,
        context: &ReverseSearchContext,
        modified: Option<i128>,
    ) -> (load: ReverseSearchLoad)
        ensures
            load@ == LoadModel::started(rollouts@, *context, modified),
            is_thread_order(load@.sessions, *context, load@.order),
            load@.wf(),
    {
        let mut sessions: HashMap<u128, SessionInfo> = scan_sessions(rollouts);
        seed_active_thread_context(&mut sessions, context, modified);
        let order: Vec<ThreadId> = ordered_family(&sessions, context);
        let entries: Vec<ReverseSearchEntry> = Vec::new();
        proof {
            assert(entry_models(entries@) =~= Seq::empty());
            assert forall|i: int| 0 <= i < order@.len() implies sessions@.contains_key(
                (#[trigger] order@[i]).value,
            ) by {
                assert(order@.contains(order@[i]));
            }
        }
        ReverseSearchLoad { sessions, order, done: 0, entries, error: None }
    }

    /// The rollout to read next.
    pub fn next_rollout(&self) -> (path: Option<&PathBuf>)
        ensures
            match path {
                Some(path) => !self@.is_over() && *path
                    == self@.sessions[self@.order[self@.done].value].path,
                None => self@.is_over(),
            },
    {
        proof {
            use_type_invariant(self);
        }
        if self.error.is_some() || self.done >= self.order.len() {
            return None;
        }
        match self.sessions.get(&self.order[self.done].value) {
            Some(session) => Some(&session.path),
            None => None,
        }
    }

    /// Takes in the lines of the next rollout, or why it could not be read.
    pub fn rollout_read(&mut self, read: Result<Vec<RolloutLine>, String>)
        ensures
            final(self)@ == old(self)@.after_read(read_model(read)),
            match read {
                Ok(lines) => final(self)@ == old(self)@.after_read(Ok(lines@)),
                Err(error) => final(self)@ == old(self)@.after_read(Err(error@)),
            },
            final(self)@.wf(),
    {
        proof {
            use_type_invariant(&*self);
        }
        if self.error.is_some() || self.done >= self.order.len() {
            return ;
        }
        match read {
            Ok(lines) => {
                let mut more: Vec<ReverseSearchEntry> = read_thread_user_messages(
                    &lines,
                    self.order[self.done],
                );
                let mut entries: Vec<ReverseSearchEntry> = Vec::new();
                std::mem::swap(&mut entries, &mut self.entries);
                let ghost so_far = entries@;
                let ghost added = more@;
                entries.append(&mut more);
                assert(entry_models(entries@) =~= entry_models(so_far) + entry_models(added));
                self.entries = entries;
                self.done = self.done + 1;
            },
            Err(error) => {
                self.error = Some(error);
            },
        }
    }

    /// The entries that were loaded, or why a rollout could not be read.
    pub fn finish(self) -> (result: Result<Vec<ReverseSearchEntry>, String>)
        ensures
            match result {
                Ok(entries) => self@.error is None && entry_models(entries@) == self@.entries,
                Err(error) => self@.error == Some(error@),
            },
    {
        match self.error {
            Some(error) => Err(error),
            None => Ok(self.entries),
        }
    }
}

/// The result of a load that ran as a task of its own; where the task did not come to its end, this
/// is reported in place of a result.
pub fn task_result(
    joined: Result<Result<Vec<ReverseSearchEntry>, String>, String>,
) -> (result: Result<Vec<ReverseSearchEntry>, String>)
    ensures
        match joined {
            Ok(inner) => result == inner,
            Err(failure) => result matches Err(error) && error@ == "reverse search task failed: "@
                + failure@,
        },
{
    match joined {
        Ok(result) => result,
        Err(failure) => {
            let mut error: String = "reverse search task failed: ".to_string();
            error.push_str(failure.as_str());
            Err(error)
        },
    }
}

} // verus!
