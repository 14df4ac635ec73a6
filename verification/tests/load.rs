//! The loading of the entries of a thread and its forks.

use reverse_search::entries::ReverseSearchEntry;
use reverse_search::family::{
    connected_family_ids, ordered_family, scan_sessions, seed_active_thread_context,
    ReverseSearchContext, Rollout,
};
use reverse_search::load::{task_result, ReverseSearchLoad};
use reverse_search::messages::{
    collapse_duplicate_user_message_pair, read_thread_user_messages, EventMsg, RolloutItem,
    RolloutLine, ThreadUserMessage, TurnItem, UserMessageSource,
};
use reverse_search::rollouts::{
    collect_rollout_paths, has_rollout_name, read_session_meta_line_sync, session_meta_value,
    DirNode, SessionMeta, SessionMetaError,
};
use reverse_search::text::is_blank_line;
use reverse_search::thread_id::ThreadId;
use std::path::PathBuf;

const SESSIONS_ROOT: &str = "sessions/2026/03/30";

fn id(text: &str) -> ThreadId {
    ThreadId::from_string(text).expect("thread id")
}

fn number(value: u128) -> ThreadId {
    ThreadId { value }
}

fn line(text: &str, item: RolloutItem) -> RolloutLine {
    RolloutLine {
        line: text.to_string(),
        item: Some(item),
    }
}

fn event(message: &str) -> RolloutLine {
    line(
        "{\"type\":\"event_msg\"}",
        RolloutItem::EventMsg(EventMsg::UserMessage(message.to_string())),
    )
}

fn response(message: &str) -> RolloutLine {
    line(
        "{\"type\":\"response_item\"}",
        RolloutItem::ResponseItem(Some(TurnItem::UserMessage(message.to_string()))),
    )
}

fn rollout(name: &str, meta: Option<SessionMeta>, modified: Option<i128>) -> Rollout {
    Rollout {
        path: PathBuf::from(SESSIONS_ROOT).join(name),
        meta,
        modified,
    }
}

fn session(value: u128, parent: Option<u128>, modified: i128) -> Rollout {
    rollout(
        &format!("rollout-{value}.jsonl"),
        Some(SessionMeta {
            id: number(value),
            forked_from_id: parent.map(number),
        }),
        Some(modified),
    )
}

fn context(value: u128, parent: Option<u128>) -> ReverseSearchContext {
    ReverseSearchContext {
        thread_id: number(value),
        forked_from_id: parent.map(number),
        rollout_path: None,
    }
}

/// Reads each rollout that the load asks for with `read`.
fn load_reverse_search_entries<F>(
    rollouts: &Vec<Rollout>,
    context: &ReverseSearchContext,
    read: F,
) -> Result<Vec<ReverseSearchEntry>, String>
where
    F: Fn(&PathBuf) -> Result<Vec<RolloutLine>, String>,
{
    let mut load = ReverseSearchLoad::start(rollouts, context, None);
    while let Some(path) = load.next_rollout() {
        let lines = read(path);
        load.rollout_read(lines);
    }
    load.finish()
}

fn texts(entries: &[ReverseSearchEntry]) -> Vec<&str> {
    entries.iter().map(|entry| entry.text.as_str()).collect()
}

fn order(rollouts: &Vec<Rollout>, context: &ReverseSearchContext) -> Vec<u128> {
    ordered_family(&scan_sessions(rollouts), context)
        .iter()
        .map(|id| id.value)
        .collect()
}

fn loads_with_times(root: i128, sibling: i128) -> Vec<ReverseSearchEntry> {
    let root_thread_id = id("00000000-0000-0000-0000-000000000001");
    let current_thread_id = id("00000000-0000-0000-0000-000000000002");
    let sibling_thread_id = id("00000000-0000-0000-0000-000000000003");
    let unrelated_thread_id = id("00000000-0000-0000-0000-000000000004");
    let names = [
        "rollout-2026-03-30T10-00-00-000000000Z-00000000-0000-0000-0000-000000000001.jsonl",
        "rollout-2026-03-30T10-05-00-000000000Z-00000000-0000-0000-0000-000000000002.jsonl",
        "rollout-2026-03-30T10-10-00-000000000Z-00000000-0000-0000-0000-000000000003.jsonl",
        "rollout-2026-03-30T10-15-00-000000000Z-00000000-0000-0000-0000-000000000004.jsonl",
    ];
    let meta = |id, forked_from_id| Some(SessionMeta { id, forked_from_id });
    let rollouts = vec![
        rollout(names[0], meta(root_thread_id, None), Some(root)),
        rollout(
            names[1],
            meta(current_thread_id, Some(root_thread_id)),
            Some(5),
        ),
        rollout(
            names[2],
            meta(sibling_thread_id, Some(root_thread_id)),
            Some(sibling),
        ),
        rollout(names[3], meta(unrelated_thread_id, None), Some(1000)),
    ];
    let read = |path: &PathBuf| {
        let name = path.file_name().expect("name").to_string_lossy().to_string();
        let prompts: &[&str] = if name == names[0] {
            &["root prompt", "root newer"]
        } else if name == names[1] {
            &["current first", "current latest"]
        } else if name == names[2] {
            &["sibling first", "sibling latest"]
        } else {
            &["unrelated latest"]
        };
        let mut lines = vec![line("{\"id\":\"\"}", RolloutItem::SessionMeta)];
        lines.extend(prompts.iter().map(|prompt| event(prompt)));
        Ok(lines)
    };
    load_reverse_search_entries(
        &rollouts,
        &ReverseSearchContext {
            thread_id: current_thread_id,
            forked_from_id: Some(root_thread_id),
            rollout_path: None,
        },
        read,
    )
    .expect("reverse search entries")
}

#[test]
fn loads_current_thread_first_then_connected_forks() {
    let root_thread_id = id("00000000-0000-0000-0000-000000000001");
    let current_thread_id = id("00000000-0000-0000-0000-000000000002");
    let sibling_thread_id = id("00000000-0000-0000-0000-000000000003");
    let current = [
        ReverseSearchEntry {
            thread_id: current_thread_id,
            text: "current latest".to_string(),
        },
        ReverseSearchEntry {
            thread_id: current_thread_id,
            text: "current first".to_string(),
        },
    ];
    let sibling_then_root = [
        ReverseSearchEntry {
            thread_id: sibling_thread_id,
            text: "sibling latest".to_string(),
        },
        ReverseSearchEntry {
            thread_id: sibling_thread_id,
            text: "sibling first".to_string(),
        },
        ReverseSearchEntry {
            thread_id: root_thread_id,
            text: "root newer".to_string(),
        },
        ReverseSearchEntry {
            thread_id: root_thread_id,
            text: "root prompt".to_string(),
        },
    ];
    let root_then_sibling = [
        ReverseSearchEntry {
            thread_id: root_thread_id,
            text: "root newer".to_string(),
        },
        ReverseSearchEntry {
            thread_id: root_thread_id,
            text: "root prompt".to_string(),
        },
        ReverseSearchEntry {
            thread_id: sibling_thread_id,
            text: "sibling latest".to_string(),
        },
        ReverseSearchEntry {
            thread_id: sibling_thread_id,
            text: "sibling first".to_string(),
        },
    ];

    let entries = loads_with_times(1, 10);
    assert_eq!(&entries[..2], &current[..]);
    assert_eq!(&entries[2..], &sibling_then_root[..]);

    let entries = loads_with_times(10, 1);
    assert_eq!(&entries[..2], &current[..]);
    assert_eq!(&entries[2..], &root_then_sibling[..]);

    let entries = loads_with_times(7, 7);
    assert_eq!(&entries[..2], &current[..]);
    assert_eq!(&entries[2..], &root_then_sibling[..]);
}

#[test]
fn collapses_duplicate_response_and_event_user_messages() {
    let thread_id = id("00000000-0000-0000-0000-000000000001");
    let rollouts = vec![rollout(
        "rollout-2026-03-30T10-00-00-000000000Z-00000000-0000-0000-0000-000000000001.jsonl",
        Some(SessionMeta {
            id: thread_id,
            forked_from_id: None,
        }),
        None,
    )];
    let read = |_: &PathBuf| {
        let mut lines = vec![line("{}", RolloutItem::SessionMeta)];
        for timestamp in ["2026-03-30T10:00:01.000Z", "2026-03-30T10:01:01.000Z"] {
            lines.push(line(
                &format!(
                    "{{\"timestamp\":\"{timestamp}\",\"type\":\"response_item\",\"payload\":{}",
                    concat_payload()
                ),
                RolloutItem::ResponseItem(Some(TurnItem::UserMessage("same prompt".to_string()))),
            ));
            lines.push(event("same prompt"));
        }
        Ok(lines)
    };
    let entries = load_reverse_search_entries(
        &rollouts,
        &ReverseSearchContext {
            thread_id,
            forked_from_id: None,
            rollout_path: None,
        },
        read,
    )
    .expect("reverse search entries");
    assert_eq!(
        entries,
        vec![
            ReverseSearchEntry {
                thread_id,
                text: "same prompt".to_string(),
            },
            ReverseSearchEntry {
                thread_id,
                text: "same prompt".to_string(),
            },
        ]
    );
}

fn concat_payload() -> String {
    let mut payload = String::new();
    payload.push_str("{\"type\":\"message\",\"role\":\"user\",\"content\":[{\"type\":\"input_text\",");
    payload.push_str("\"text\":\"same prompt\"}]}}");
    payload
}

#[test]
fn unreadable_rollout_of_the_family_fails_the_load() {
    let rollouts = vec![
        session(1, None, 1),
        session(2, Some(1), 2),
        session(3, None, 3),
    ];
    let read = |path: &PathBuf| {
        if path.ends_with("rollout-1.jsonl") || path.ends_with("rollout-3.jsonl") {
            Err("stream did not contain valid UTF-8".to_string())
        } else {
            Ok(vec![event("fine")])
        }
    };
    assert_eq!(
        load_reverse_search_entries(&rollouts, &context(2, Some(1)), read),
        Err("stream did not contain valid UTF-8".to_string())
    );
    assert_eq!(
        load_reverse_search_entries(&rollouts, &context(2, Some(9)), read)
            .map(|entries| entries.len()),
        Err("stream did not contain valid UTF-8".to_string())
    );
    let lone = vec![session(2, None, 2), session(3, None, 3)];
    let entries = load_reverse_search_entries(&lone, &context(2, None), read).expect("entries");
    assert_eq!(texts(&entries), vec!["fine"]);
}

#[test]
fn nothing_is_read_after_a_failure() {
    let rollouts = vec![session(1, None, 1), session(2, Some(1), 2)];
    let mut load = ReverseSearchLoad::start(&rollouts, &context(2, None), None);
    assert!(load.next_rollout().expect("path").ends_with("rollout-2.jsonl"));
    load.rollout_read(Err("first".to_string()));
    assert_eq!(load.next_rollout(), None);
    load.rollout_read(Err("second".to_string()));
    load.rollout_read(Ok(vec![event("late")]));
    assert_eq!(load.finish(), Err("first".to_string()));
}

#[test]
fn thread_without_a_session_is_searched_through_its_rollout_path() {
    let rollouts = vec![session(1, None, 1)];
    let context = ReverseSearchContext {
        thread_id: number(2),
        forked_from_id: Some(number(1)),
        rollout_path: Some(PathBuf::from("elsewhere.jsonl")),
    };
    let mut load = ReverseSearchLoad::start(&rollouts, &context, Some(77));
    assert_eq!(load.next_rollout(), Some(&PathBuf::from("elsewhere.jsonl")));
    load.rollout_read(Ok(vec![event("here")]));
    assert!(load.next_rollout().expect("path").ends_with("rollout-1.jsonl"));
    load.rollout_read(Ok(vec![event("there")]));
    assert_eq!(load.next_rollout(), None);
    assert_eq!(texts(&load.finish().expect("entries")), vec!["here", "there"]);

    let mut sessions = scan_sessions(&rollouts);
    seed_active_thread_context(&mut sessions, &context, Some(77));
    assert_eq!(sessions[&2].updated_at, 77);
    assert_eq!(sessions[&2].forked_from_id, Some(number(1)));
    seed_active_thread_context(&mut sessions, &context, None);
    assert_eq!(sessions[&2].updated_at, 77);

    let mut sessions = scan_sessions(&rollouts);
    seed_active_thread_context(&mut sessions, &context, None);
    assert_eq!(sessions[&2].updated_at, 0);
}

#[test]
fn thread_without_a_session_and_a_path_still_has_a_family() {
    let rollouts = vec![session(1, None, 1), session(3, Some(1), 2)];
    assert_eq!(order(&rollouts, &context(2, Some(1))), vec![3, 1]);
    assert_eq!(order(&rollouts, &context(2, None)), Vec::<u128>::new());
}

#[test]
fn rollouts_without_metadata_are_left_out_and_later_ones_count() {
    let mut first = session(1, None, 10);
    first.path = PathBuf::from("old.jsonl");
    let mut second = session(1, Some(4), 3);
    second.path = PathBuf::from("new.jsonl");
    let mut third = session(2, None, 5);
    third.modified = None;
    let sessions = scan_sessions(&vec![
        first,
        rollout("broken.jsonl", None, Some(99)),
        second,
        third,
    ]);
    assert_eq!(sessions.len(), 2);
    assert_eq!(sessions[&1].path, PathBuf::from("new.jsonl"));
    assert_eq!(sessions[&1].forked_from_id, Some(number(4)));
    assert_eq!(sessions[&1].updated_at, 3);
    assert_eq!(sessions[&2].updated_at, 0);
}

#[test]
fn family_is_connected_along_forks() {
    let rollouts = vec![
        session(1, Some(10), 1),
        session(2, Some(1), 2),
        session(3, Some(2), 3),
        session(4, Some(10), 4),
        session(5, Some(6), 5),
    ];
    let sessions = scan_sessions(&rollouts);
    let mut family: Vec<u128> = connected_family_ids(&sessions, &context(3, Some(2)))
        .into_iter()
        .collect();
    family.sort();
    assert_eq!(family, vec![1, 2, 3, 4]);
    let family = connected_family_ids(&sessions, &context(5, None));
    assert_eq!(family.into_iter().collect::<Vec<u128>>(), vec![5]);
}

#[test]
fn unrelated_rollouts_change_nothing() {
    let found = || {
        vec![
            session(1, None, 10),
            session(2, Some(1), 20),
            session(3, Some(1), 30),
            session(8, None, 40),
        ]
    };
    let unrelated = || {
        vec![
            session(9, Some(8), 50),
            session(8, Some(9), 60),
            rollout("rollout-x.jsonl", None, Some(70)),
        ]
    };
    let read = |path: &PathBuf| Ok(vec![event(&path.to_string_lossy())]);
    let context = context(2, Some(1));
    let rollouts = found();
    let entries = load_reverse_search_entries(&rollouts, &context, read).expect("entries");
    assert_eq!(order(&rollouts, &context), vec![2, 3, 1]);
    assert_eq!(
        texts(&entries),
        vec![
            "sessions/2026/03/30/rollout-2.jsonl",
            "sessions/2026/03/30/rollout-3.jsonl",
            "sessions/2026/03/30/rollout-1.jsonl",
        ]
    );
    for place in 0..=rollouts.len() {
        for added in unrelated() {
            let mut more = found();
            more.insert(place, added);
            assert_eq!(order(&more, &context), vec![2, 3, 1]);
            assert_eq!(
                load_reverse_search_entries(&more, &context, read),
                Ok(entries.clone())
            );
        }
    }
}

#[test]
fn forks_may_run_in_a_circle() {
    let rollouts = vec![session(1, Some(2), 1), session(2, Some(1), 2)];
    assert_eq!(order(&rollouts, &context(1, Some(1))), vec![1, 2]);
}

#[test]
fn others_are_ordered_by_time_then_by_id() {
    let rollouts = vec![
        session(0x1f, Some(1), 5),
        session(0x20, Some(1), 5),
        session(0x0a, Some(1), 5),
        session(0x30, Some(1), 9),
        session(0x40, Some(1), -3),
        session(1, None, 0),
        session(0xff, Some(1), 4),
    ];
    assert_eq!(
        order(&rollouts, &context(0xff, Some(1))),
        vec![0xff, 0x30, 0x0a, 0x1f, 0x20, 1, 0x40]
    );
}

#[test]
fn messages_are_trimmed_and_newest_first() {
    let lines = vec![
        line("{}", RolloutItem::SessionMeta),
        event("  one \n"),
        RolloutLine {
            line: "not json".to_string(),
            item: None,
        },
        line(" \t", RolloutItem::EventMsg(EventMsg::UserMessage("blank".to_string()))),
        event("\u{3000}\u{a0}"),
        line("{}", RolloutItem::TurnContext),
        line("{}", RolloutItem::Compacted),
        line("{}", RolloutItem::EventMsg(EventMsg::Other)),
        line("{}", RolloutItem::ResponseItem(None)),
        line("{}", RolloutItem::ResponseItem(Some(TurnItem::Other))),
        response("two"),
    ];
    let entries = read_thread_user_messages(&lines, number(7));
    assert_eq!(texts(&entries), vec!["two", "one"]);
    assert!(entries.iter().all(|entry| entry.thread_id == number(7)));
}

#[test]
fn only_the_other_record_of_the_last_message_is_collapsed() {
    let gathered = |lines: Vec<RolloutLine>| {
        texts(&read_thread_user_messages(&lines, number(1)))
            .iter()
            .map(|text| text.to_string())
            .collect::<Vec<String>>()
    };
    assert_eq!(gathered(vec![event("a"), response(" a ")]), vec!["a"]);
    assert_eq!(gathered(vec![response("a"), event("a")]), vec!["a"]);
    assert_eq!(gathered(vec![event("a"), event("a")]), vec!["a", "a"]);
    assert_eq!(gathered(vec![response("a"), response("a")]), vec!["a", "a"]);
    assert_eq!(gathered(vec![event("a"), response("b")]), vec!["b", "a"]);
    assert_eq!(
        gathered(vec![event("a"), response("b"), response("a")]),
        vec!["a", "b", "a"]
    );
    assert_eq!(
        gathered(vec![
            event("a"),
            response("a"),
            event("a"),
            response("a"),
            event("a"),
            response("a"),
        ]),
        vec!["a", "a", "a"]
    );
}

#[test]
fn collapsed_pair_counts_as_an_event() {
    let mut messages = Vec::new();
    collapse_duplicate_user_message_pair(&mut messages, "a", UserMessageSource::ResponseItem);
    assert_eq!(
        messages,
        vec![ThreadUserMessage {
            text: "a".to_string(),
            source: UserMessageSource::ResponseItem,
        }]
    );
    collapse_duplicate_user_message_pair(&mut messages, "a", UserMessageSource::Event);
    assert_eq!(
        messages,
        vec![ThreadUserMessage {
            text: "a".to_string(),
            source: UserMessageSource::Event,
        }]
    );
}

#[test]
fn rollouts_are_the_files_with_the_extension() {
    for name in ["a.jsonl", "..jsonl", "a.b.jsonl", "\u{e9}.jsonl"] {
        assert!(has_rollout_name(name), "{name}");
        assert_eq!(
            PathBuf::from(name).extension().and_then(|e| e.to_str()),
            Some("jsonl")
        );
    }
    for name in [
        "", ".jsonl", "jsonl", "a.json", "a.jsonl.bak", "a.JSONL", "ajsonl", "a.jsonll",
    ] {
        assert!(!has_rollout_name(name), "{name}");
        assert_ne!(
            PathBuf::from(name).extension().and_then(|e| e.to_str()),
            Some("jsonl")
        );
    }
}

#[test]
fn rollouts_are_collected_in_the_order_in_which_they_are_listed() {
    let file = |name: &str| DirNode::File {
        name: name.to_string(),
        path: PathBuf::from(name),
    };
    let nodes = vec![
        file("z.jsonl"),
        DirNode::Dir(vec![
            file("b.jsonl"),
            DirNode::Dir(vec![file("c.txt"), file("a.jsonl")]),
            DirNode::Dir(Vec::new()),
        ]),
        file("readme"),
        file("d.jsonl"),
    ];
    let mut out = vec![PathBuf::from("before")];
    collect_rollout_paths(&nodes, &mut out);
    assert_eq!(
        out,
        ["before", "z.jsonl", "b.jsonl", "a.jsonl", "d.jsonl"]
            .iter()
            .map(PathBuf::from)
            .collect::<Vec<PathBuf>>()
    );
}

#[test]
fn metadata_is_the_first_value_of_the_first_line_that_is_not_blank() {
    let lines = |texts: &[&str]| texts.iter().map(|t| t.to_string()).collect::<Vec<String>>();
    let value = read_session_meta_line_sync(&lines(&[
        "\n",
        "  \t\n",
        " {\"id\": 7} trailing\n",
        "{\"id\": 8}\n",
    ]))
    .expect("value");
    assert_eq!(value["id"], serde_json::Value::from(7));
    assert_eq!(value.as_object().expect("object").len(), 1);

    assert_eq!(
        read_session_meta_line_sync(&lines(&[])),
        Err(SessionMetaError::Empty)
    );
    assert_eq!(
        read_session_meta_line_sync(&lines(&["\n", "\u{2003}\n"])),
        Err(SessionMetaError::Empty)
    );
    let broken = read_session_meta_line_sync(&lines(&["{\"id\"\n", "{\"id\": 8}\n"]));
    let expected = serde_json::from_str::<serde_json::Value>("{\"id\"\n")
        .expect_err("no value")
        .to_string();
    assert_eq!(broken, Err(SessionMetaError::Json(expected)));
    assert_eq!(session_meta_value(None), Err(SessionMetaError::NoValue));
    assert_eq!(
        session_meta_value(Some(Ok(serde_json::Value::Null))),
        Ok(serde_json::Value::Null)
    );
}

#[test]
fn metadata_errors_are_described() {
    assert_eq!(
        SessionMetaError::Empty.describe("/tmp/x.jsonl"),
        "rollout at /tmp/x.jsonl is empty"
    );
    assert_eq!(
        SessionMetaError::Json("EOF".to_string()).describe("/tmp/x.jsonl"),
        "EOF"
    );
    assert_eq!(
        SessionMetaError::NoValue.describe("/tmp/x.jsonl"),
        "failed to parse session metadata line"
    );
    assert_eq!(
        SessionMetaError::NotSessionMeta.describe("/tmp/x.jsonl"),
        "rollout at /tmp/x.jsonl does not start with session metadata"
    );
}

#[test]
fn blank_lines_hold_nothing_but_white_space() {
    for code in 0..0x11_0000_u32 {
        if let Some(c) = char::from_u32(code) {
            let text = c.to_string();
            assert_eq!(is_blank_line(&text), c.is_whitespace(), "{code:x}");
        }
    }
    assert!(is_blank_line(""));
    assert!(is_blank_line(" \t\r\n\u{85}\u{2028}"));
    assert!(!is_blank_line(" \u{200b} "));
    assert!(!is_blank_line("  x"));
}

#[test]
fn failure_of_the_task_is_reported() {
    assert_eq!(
        task_result(Err("panicked".to_string())),
        Err("reverse search task failed: panicked".to_string())
    );
    assert_eq!(task_result(Ok(Err("io".to_string()))), Err("io".to_string()));
    assert_eq!(task_result(Ok(Ok(Vec::new()))), Ok(Vec::new()));
}
