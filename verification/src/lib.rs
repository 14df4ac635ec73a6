//! Reverse search over the prompts of a chat thread and of the threads that are connected with it by
//! forks.
//!
//! A load gathers the prompts: [`rollouts`] finds the files, [`family`] the threads and their order,
//! [`messages`] the prompts of one thread, and [`load`] puts them together. The search itself, with
//! its query, its matches and its footer, is in [`state`].

pub mod entries;
pub mod family;
pub mod footer;
pub mod load;
pub mod load_laws;
pub mod messages;
pub mod pattern;
pub mod rollouts;
pub mod search_laws;
pub mod state;
pub mod text;
pub mod thread_id;
