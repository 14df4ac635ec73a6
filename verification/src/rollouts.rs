//! The rollouts on disk: which files they are, and the metadata with which they start.

use crate::text::{is_blank, is_blank_line, is_white_space};
use crate::thread_id::ThreadId;
use serde_json::{Deserializer, Error, Value};
use std::path::PathBuf;
use vstd::prelude::*;
use vstd::string::*;

verus! {

/// A path of the file system.
#[verifier::external_type_specification]
#[verifier::external_body]
pub struct ExPathBuf(std::path::PathBuf);

/// A JSON value of `serde_json`.
#[verifier::external_type_specification]
#[verifier::external_body]
pub struct ExValue(serde_json::Value);

/// An error of `serde_json`.
#[verifier::external_type_specification]
#[verifier::external_body]
pub struct ExJsonError(serde_json::Error);

/// `PathBuf::clone` gives the same path.
pub assume_specification[ <PathBuf as Clone>::clone ](path: &PathBuf) -> (copy: PathBuf)
    ensures
        copy == *path,
;

/// The first JSON value that a text holds, or why none can be read there; nothing where there is
/// only white space. It is what `Deserializer::from_str(text).into_iter::<Value>().next()` returns.
pub uninterp spec fn first_json_value(text: Seq<char>) -> Option<Result<Value, Error>>;

/// The description of an error of `serde_json`.
pub uninterp spec fn json_error_text(error: Error) -> Seq<char>;

/// The first step of the iterator that `Deserializer::into_iter` makes of the deserializer of a
/// text gives the first JSON value of the text.
#[verifier::external_body]
fn next_json_value(text: &str) -> (next: Option<Result<Value, Error>>)
    ensures
        next == first_json_value(text@),
{
    Deserializer::from_str(text).into_iter::<Value>().next()
}

/// `to_string` on an error of `serde_json` gives its description.
#[verifier::external_body]
fn describe_json_error(error: &Error) -> (text: String)
    ensures
        text@ == json_error_text(*error),
{
    error.to_string()
}

/// Why a rollout has no session metadata.
#[derive(Debug, PartialEq, Eq)]
pub enum SessionMetaError {
    /// It has no line that is not blank.
    Empty,
    /// Its first line that is not blank holds no JSON.
    Json(String),
    /// Its first line that is not blank holds no value.
    NoValue,
    /// Its first value is not session metadata.
    NotSessionMeta,
}

/// The session metadata of a rollout, as far as the search is concerned.
#[derive(Clone, Copy, Debug, PartialEq, Eq, Structural)]
pub struct SessionMeta {
    pub id: ThreadId,
    pub forked_from_id: Option<ThreadId>,
}

/// The first line that is not blank.
pub open spec fn first_line(lines: Seq<String>) -> Option<Seq<char>>
    decreases lines.len(),
{
    if lines.len() == 0 {
        None
    } else if is_blank(lines.first()@) {
        first_line(lines.drop_first())
    } else {
        Some(lines.first()@)
    }
}

/// What the reading of the first JSON value of the metadata line leads to.
pub open spec fn session_meta_outcome(
    next: Option<Result<Value, Error>>,
    outcome: Result<Value, SessionMetaError>,
) -> bool {
    match next {
        Some(Ok(value)) => outcome == Ok::<Value, SessionMetaError>(value),
        Some(Err(error)) => outcome matches Err(SessionMetaError::Json(text)) && text@
            == json_error_text(error),
        None => outcome matches Err(SessionMetaError::NoValue),
    }
}

/// The value on the metadata line, given what the reading of its first JSON value gave.
pub fn session_meta_value(next: Option<Result<Value, Error>>) -> (outcome: Result<
    Value,
    SessionMetaError,
>)
    ensures
        session_meta_outcome(next, outcome),
{
    match next {
        Some(Ok(value)) => Ok(value),
        Some(Err(error)) => Err(SessionMetaError::Json(describe_json_error(&error))),
        None => Err(SessionMetaError::NoValue),
    }
}

/// The first JSON value of the first line that is not blank.
pub fn read_session_meta_line_sync(lines: &Vec<String>) -> (outcome: Result<
    Value,
    SessionMetaError,
>)
    ensures
        match first_line(lines@) {
            Some(line) => session_meta_outcome(first_json_value(line), outcome),
            None => outcome matches Err(SessionMetaError::Empty),
        },
{
    let mut index: usize = 0;
    assert(lines@.skip(0) =~= lines@);
    while index < lines.len()
        invariant
            index <= lines@.len(),
            first_line(lines@) == first_line(lines@.skip(index as int)),
        decreases lines@.len() - index,
    {
        let line: &str = lines[index].as_str();
        assert(lines@.skip(index as int).drop_first() =~= lines@.skip(index + 1));
        if is_blank_line(line) {
            index = index + 1;
            continue ;
        }
        return session_meta_value(next_json_value(line));
    }
    Err(SessionMetaError::Empty)
}

impl SessionMetaError {
    /// The message for the rollout at `path`.
    pub open spec fn text(self, path: Seq<char>) -> Seq<char> {
        match self {
            SessionMetaError::Empty => "rollout at "@ + path + " is empty"@,
            SessionMetaError::Json(text) => text@,
            SessionMetaError::NoValue => "failed to parse session metadata line"@,
            SessionMetaError::NotSessionMeta => "rollout at "@ + path
                + " does not start with session metadata"@,
        }
    }

    /// Describes the error.
    pub fn describe(&self, path: &str) -> (text: String)
        ensures
            text@ == self.text(path@),
    {
        match self {
            SessionMetaError::Empty => {
                let mut text: String = "rollout at ".to_string();
                text.push_str(path);
                text.push_str(" is empty");
                text
            },
            SessionMetaError::Json(text) => text.clone(),
            SessionMetaError::NoValue => "failed to parse session metadata line".to_string(),
            SessionMetaError::NotSessionMeta => {
                let mut text: String = "rollout at ".to_string();
                text.push_str(path);
                text.push_str(" does not start with session metadata");
                text
            },
        }
    }
}

/// An entry of a directory.
pub enum DirNode {
    Dir(Vec<DirNode>),
    File { name: String, path: PathBuf },
}

/// A rollout is a file whose name has the extension `jsonl`: it ends so, and more than the extension
/// is there.
pub open spec fn is_rollout_name(name: Seq<char>) -> bool {
    name.len() > 6 && name.skip(name.len() - 6) == ".jsonl"@
}

/// The rollouts under some directory entries, in the order in which they are listed.
pub open spec fn rollout_paths(nodes: Seq<DirNode>) -> Seq<PathBuf>
    decreases nodes,
{
    if nodes.len() == 0 {
        Seq::empty()
    } else {
        rollout_paths(nodes.drop_last()) + node_rollout_paths(nodes.last())
    }
}

/// The rollouts under a directory entry.
pub open spec fn node_rollout_paths(node: DirNode) -> Seq<PathBuf>
    decreases node,
{
    match node {
        DirNode::Dir(nodes) => rollout_paths(nodes@),
        DirNode::File { name, path } => if is_rollout_name(name@) {
            seq![path]
        } else {
            Seq::empty()
        },
    }
}

/// Whether a file with this name is a rollout.
pub fn has_rollout_name(name: &str) -> (is_rollout: bool)
    ensures
        is_rollout == is_rollout_name(name@),
{
    let count: usize = name.unicode_len();
    if count <= 6 {
        return false;
    }
    let ending: String = name.substring_char(count - 6, count).to_string();
    assert(name@.skip(count - 6) =~= name@.subrange(count - 6, count as int));
    ending == ".jsonl".to_string()
}

/// Collects the rollouts under some directory entries.
pub fn collect_rollout_paths(nodes: &Vec<DirNode>, out: &mut Vec<PathBuf>)
    ensures
        final(out)@ == old(out)@ + rollout_paths(nodes@),
    decreases nodes,
{
    let mut index: usize = 0;
    while index < nodes.len()
        invariant
            index <= nodes@.len(),
            out@ =~= old(out)@ + rollout_paths(nodes@.take(index as int)),
        decreases nodes@.len() - index,
    {
        proof {
            reveal_with_fuel(rollout_paths, 2);
            reveal_with_fuel(node_rollout_paths, 2);
            assert(nodes@.take(index + 1).drop_last() =~= nodes@.take(index as int));
            assert(nodes@.take(index + 1).last() == nodes@[index as int]);
        }
        match &nodes[index] {
            DirNode::Dir(children) => {
                collect_rollout_paths(children, out);
            },
            DirNode::File { name, path } => {
                if has_rollout_name(name.as_str()) {
                    out.push(path.clone());
                }
            },
        }
        index = index + 1;
    }
    assert(nodes@.take(index as int) =~= nodes@);
}

/// The metadata line is the first that holds anything but white space.
pub proof fn law_the_first_line_that_is_not_blank_counts(lines: Seq<String>, i: int)
    requires
        0 <= i <= lines.len(),
        forall|j: int, k: int|
            0 <= j < i && 0 <= k < lines[j]@.len() ==> is_white_space(#[trigger] lines[j]@[k]),
        i < lines.len() ==> exists|k: int|
            0 <= k < lines[i]@.len() && !is_white_space(#[trigger] lines[i]@[k]),
    ensures
        i < lines.len() ==> first_line(lines) == Some(lines[i]@),
        i == lines.len() ==> first_line(lines) is None,
    decreases i,
{
    if i > 0 {
        let rest = lines.drop_first();
        assert(is_blank(lines.first()@)) by {
            assert forall|k: int| 0 <= k < lines.first()@.len() implies is_white_space(
                #[trigger] lines.first()@[k],
            ) by {
                assert(is_white_space(lines[0]@[k]));
            }
        }
        assert forall|j: int, k: int| 0 <= j < i - 1 && 0 <= k < rest[j]@.len() implies is_white_space(
            #[trigger] rest[j]@[k],
        ) by {
            assert(is_white_space(lines[j + 1]@[k]));
        }
        if i < lines.len() {
            let k = choose|k: int|
                0 <= k < lines[i]@.len() && !is_white_space(#[trigger] lines[i]@[k]);
            assert(rest[i - 1] == lines[i]);
            assert(!is_white_space(rest[i - 1]@[k]));
        }
        law_the_first_line_that_is_not_blank_counts(rest, i - 1);
    } else if lines.len() > 0 {
        let k = choose|k: int| 0 <= k < lines[0]@.len() && !is_white_space(#[trigger] lines[0]@[k]);
        assert(!is_white_space(lines.first()@[k]));
    }
}

/// A value that was read is what is returned; what cannot be read is reported as what it is.
pub proof fn law_a_value_that_was_read_is_returned(
    value: Value,
    error: Error,
    outcome: Result<Value, SessionMetaError>,
)
    ensures
        session_meta_outcome(Some(Ok(value)), outcome) <==> outcome == Ok::<
            Value,
            SessionMetaError,
        >(value),
        session_meta_outcome(Some(Err(error)), outcome) <==> (outcome matches Err(
            SessionMetaError::Json(text),
        ) && text@ == json_error_text(error)),
        session_meta_outcome(None, outcome) <==> (outcome matches Err(SessionMetaError::NoValue)),
{
}

/// How the errors read.
pub proof fn law_errors_read(path: Seq<char>, text: String)
    ensures
        SessionMetaError::Empty.text(path) == "rollout at "@ + path + " is empty"@,
        SessionMetaError::Json(text).text(path) == text@,
        SessionMetaError::NoValue.text(path) == "failed to parse session metadata line"@,
        SessionMetaError::NotSessionMeta.text(path) == "rollout at "@ + path
            + " does not start with session metadata"@,
{
}

/// The extension makes a name that of a rollout, whatever stands before it, if anything does; and a
/// rollout has no other name.
pub proof fn law_the_extension_makes_a_rollout(stem: Seq<char>, name: Seq<char>)
    ensures
        is_rollout_name(stem + ".jsonl"@) <==> stem.len() > 0,
        is_rollout_name(name) ==> name.len() > 6 && name == name.take(name.len() - 6) + ".jsonl"@,
{
    reveal_strlit(".jsonl");
    let written = stem + ".jsonl"@;
    assert(written.skip(written.len() - 6) =~= ".jsonl"@);
    if is_rollout_name(name) {
        assert(name =~= name.take(name.len() - 6) + name.skip(name.len() - 6));
    }
}

/// What is listed later is collected later, and nothing is lost or added where lists are joined.
pub proof fn law_rollouts_are_collected_in_order(left: Seq<DirNode>, right: Seq<DirNode>)
    ensures
        rollout_paths(left + right) == rollout_paths(left) + rollout_paths(right),
        rollout_paths(Seq::<DirNode>::empty()).len() == 0,
    decreases right.len(),
{
    if right.len() == 0 {
        assert(left + right =~= left);
        assert(rollout_paths(left) + rollout_paths(right) =~= rollout_paths(left));
    } else {
        law_rollouts_are_collected_in_order(left, right.drop_last());
        assert((left + right).drop_last() =~= left + right.drop_last());
        assert(rollout_paths(left + right) =~= rollout_paths(left) + rollout_paths(right));
    }
}

/// Of a directory everything in it is collected, however deep; of a file its path, if a name stands
/// before the extension `.jsonl`, else nothing.
pub proof fn law_directories_are_collected_whole(
    children: Vec<DirNode>,
    name: String,
    path: PathBuf,
    stem: Seq<char>,
)
    ensures
        rollout_paths(seq![DirNode::Dir(children)]) == rollout_paths(children@),
        name@ == stem + ".jsonl"@ && stem.len() > 0 ==> rollout_paths(
            seq![DirNode::File { name, path }],
        ) == seq![path],
        name@.len() <= 6 || name@.skip(name@.len() - 6) != ".jsonl"@ ==> rollout_paths(
            seq![DirNode::File { name, path }],
        ).len() == 0,
{
    reveal_with_fuel(rollout_paths, 3);
    reveal_with_fuel(node_rollout_paths, 3);
    law_the_extension_makes_a_rollout(stem, name@);
    let directory = seq![DirNode::Dir(children)];
    assert(directory.drop_last() =~= Seq::empty());
    assert(rollout_paths(directory) =~= rollout_paths(children@));
    let file = seq![DirNode::File { name, path }];
    assert(file.drop_last() =~= Seq::empty());
    assert(rollout_paths(file) =~= node_rollout_paths(file.last()));
}

} // verus!
