//! The user messages of one thread.

use crate::entries::{entry_models, EntryModel, ReverseSearchEntry};
use crate::text::{
    is_blank, is_blank_line, is_white_space, law_trimming_twice_is_trimming_once,
    lemma_blank_iff_nothing_left, trimmed,
};
use crate::thread_id::ThreadId;
use vstd::prelude::*;

verus! {

/// How a user message was recorded.
#[derive(Clone, Copy, Debug, PartialEq, Eq, Structural)]
pub enum UserMessageSource {
    Event,
    ResponseItem,
}

/// A user message as it is gathered from a rollout.
#[derive(Debug, PartialEq, Eq)]
pub struct ThreadUserMessage {
    pub text: String,
    pub source: UserMessageSource,
}

/// The text and the source of a user message.
#[verifier::ext_equal]
pub struct MessageModel {
    pub text: Seq<char>,
    pub source: UserMessageSource,
}

impl View for ThreadUserMessage {
    type V = MessageModel;

    open spec fn view(&self) -> MessageModel {
        MessageModel { text: self.text@, source: self.source }
    }
}

/// The messages that a list holds.
pub open spec fn message_models(messages: Seq<ThreadUserMessage>) -> Seq<MessageModel> {
    messages.map_values(|message: ThreadUserMessage| message@)
}

/// A message is the other record of the last one gathered.
pub open spec fn repeats_last(
    messages: Seq<MessageModel>,
    text: Seq<char>,
    source: UserMessageSource,
) -> bool {
    &&& messages.len() > 0
    &&& messages.last().text == text
    &&& messages.last().source != source
}

/// The messages after one more was recorded. The other record of the last message adds nothing and
/// makes the last one count as an event; any other message is appended.
pub open spec fn with_message(
    messages: Seq<MessageModel>,
    text: Seq<char>,
    source: UserMessageSource,
) -> Seq<MessageModel> {
    if repeats_last(messages, text, source) {
        messages.drop_last().push(MessageModel { text, source: UserMessageSource::Event })
    } else {
        messages.push(MessageModel { text, source })
    }
}

/// Adds a message, unless it is the other record of the last one.
pub fn collapse_duplicate_user_message_pair(
    user_messages: &mut Vec<ThreadUserMessage>,
    text: &str,
    source: UserMessageSource,
)
    ensures
        message_models(final(user_messages)@) == with_message(
            message_models(old(user_messages)@),
            text@,
            source,
        ),
{
    let text: String = text.to_string();
    let count: usize = user_messages.len();
    if count > 0 && user_messages[count - 1].text == text && user_messages[count - 1].source
        != source {
        user_messages[count - 1].source = UserMessageSource::Event;
        assert(message_models(user_messages@) =~= message_models(
            old(user_messages)@,
        ).drop_last().push(MessageModel { text: text@, source: UserMessageSource::Event }));
        return ;
    }
    user_messages.push(ThreadUserMessage { text, source });
    assert(message_models(user_messages@) =~= message_models(old(user_messages)@).push(
        MessageModel { text: text@, source },
    ));
}

/// An event that a rollout records.
pub enum EventMsg {
    UserMessage(String),
    Other,
}

/// A turn item that a response item stands for.
pub enum TurnItem {
    UserMessage(String),
    Other,
}

/// What a line of a rollout records. A response item may stand for no turn item.
pub enum RolloutItem {
    SessionMeta,
    TurnContext,
    Compacted,
    EventMsg(EventMsg),
    ResponseItem(Option<TurnItem>),
}

/// A line of a rollout: its text, and what it records if it can be read.
pub struct RolloutLine {
    pub line: String,
    pub item: Option<RolloutItem>,
}

/// The message that a line records, and how; trimmed, and none where nothing is left.
pub open spec fn recorded_message(line: RolloutLine) -> Option<MessageModel> {
    if is_blank(line.line@) {
        None
    } else {
        match line.item {
            Some(RolloutItem::EventMsg(EventMsg::UserMessage(message))) => message_of(
                message@,
                UserMessageSource::Event,
            ),
            Some(RolloutItem::ResponseItem(Some(TurnItem::UserMessage(message)))) => message_of(
                message@,
                UserMessageSource::ResponseItem,
            ),
            _ => None,
        }
    }
}

/// The message with this text, trimmed; none where nothing is left.
pub open spec fn message_of(text: Seq<char>, source: UserMessageSource) -> Option<MessageModel> {
    if trimmed(text).len() > 0 {
        Some(MessageModel { text: trimmed(text), source })
    } else {
        None
    }
}

/// The messages that are gathered from some lines, the oldest first.
pub open spec fn gathered(lines: Seq<RolloutLine>) -> Seq<MessageModel>
    decreases lines.len(),
{
    if lines.len() == 0 {
        Seq::empty()
    } else {
        match recorded_message(lines.last()) {
            Some(message) => with_message(
                gathered(lines.drop_last()),
                message.text,
                message.source,
            ),
            None => gathered(lines.drop_last()),
        }
    }
}

/// The entries that the messages of a thread make, the newest first.
pub open spec fn newest_first(thread_id: ThreadId, messages: Seq<MessageModel>) -> Seq<EntryModel> {
    Seq::new(
        messages.len(),
        |i: int| EntryModel { thread_id, text: messages[messages.len() - 1 - i].text },
    )
}

/// The entries of the thread with these rollout lines.
pub open spec fn thread_entries(thread_id: ThreadId, lines: Seq<RolloutLine>) -> Seq<EntryModel> {
    newest_first(thread_id, gathered(lines))
}

/// The user messages that the lines of a rollout record, the newest first.
pub fn read_thread_user_messages(lines: &Vec<RolloutLine>, thread_id: ThreadId) -> (entries: Vec<
    ReverseSearchEntry,
>)
    ensures
        entry_models(entries@) == thread_entries(thread_id, lines@),
{
    let mut user_messages: Vec<ThreadUserMessage> = Vec::new();
    assert(message_models(user_messages@) =~= Seq::empty());
    let mut index: usize = 0;
    while index < lines.len()
        invariant
            index <= lines@.len(),
            message_models(user_messages@) == gathered(lines@.take(index as int)),
        decreases lines@.len() - index,
    {
        let line: &RolloutLine = &lines[index];
        proof {
            assert(lines@.take(index + 1).drop_last() =~= lines@.take(index as int));
        }
        index = index + 1;
        if is_blank_line(line.line.as_str()) {
            continue ;
        }
        let (message, source): (&String, UserMessageSource) = match &line.item {
            Some(RolloutItem::EventMsg(EventMsg::UserMessage(message))) => {
                (message, UserMessageSource::Event)
            },
            Some(RolloutItem::ResponseItem(Some(TurnItem::UserMessage(message)))) => {
                (message, UserMessageSource::ResponseItem)
            },
            _ => {
                continue ;
            },
        };
        let text: &str = message.as_str().trim();
        if text.is_empty() {
            continue ;
        }
        collapse_duplicate_user_message_pair(&mut user_messages, text, source);
    }
    assert(lines@.take(index as int) =~= lines@);
    let mut entries: Vec<ReverseSearchEntry> = Vec::new();
    let mut left: usize = user_messages.len();
    while left > 0
        invariant
            left <= user_messages@.len(),
            entries@.len() == user_messages@.len() - left,
            forall|i: int|
                0 <= i < entries@.len() ==> (#[trigger] entries@[i])@ == (EntryModel {
                    thread_id,
                    text: user_messages@[user_messages@.len() - 1 - i].text@,
                }),
        decreases left,
    {
        left = left - 1;
        entries.push(ReverseSearchEntry { thread_id, text: user_messages[left].text.clone() });
    }
    assert(entry_models(entries@) =~= newest_first(thread_id, message_models(user_messages@)));
    entries
}

/// The messages after `n` prompts with the same text, each recorded twice: first as `first`, then in
/// the other way.
pub open spec fn with_pairs(
    messages: Seq<MessageModel>,
    text: Seq<char>,
    first: UserMessageSource,
    n: nat,
) -> Seq<MessageModel>
    decreases n,
{
    if n == 0 {
        messages
    } else {
        with_message(
            with_message(with_pairs(messages, text, first, (n - 1) as nat), text, first),
            text,
            other_source(first),
        )
    }
}

/// The other way to record a message.
pub open spec fn other_source(source: UserMessageSource) -> UserMessageSource {
    match source {
        UserMessageSource::Event => UserMessageSource::ResponseItem,
        UserMessageSource::ResponseItem => UserMessageSource::Event,
    }
}

/// Prompts that are recorded twice, as a response item and as an event, count once each, also where
/// the same prompt is sent again.
pub proof fn law_pairs_count_once(
    messages: Seq<MessageModel>,
    text: Seq<char>,
    first: UserMessageSource,
    n: nat,
)
    requires
        messages.len() > 0 ==> messages.last().text != text,
    ensures
        with_pairs(messages, text, first, n) == messages + Seq::new(
            n,
            |i: int| MessageModel { text, source: UserMessageSource::Event },
        ),
    decreases n,
{
    if n > 0 {
        law_pairs_count_once(messages, text, first, (n - 1) as nat);
    }
    assert(with_pairs(messages, text, first, n) =~= messages + Seq::new(
        n,
        |i: int| MessageModel { text, source: UserMessageSource::Event },
    ));
}

/// A message that is recorded in the same way as the one before it, or has another text, is kept.
pub proof fn law_other_messages_are_kept(
    messages: Seq<MessageModel>,
    text: Seq<char>,
    source: UserMessageSource,
)
    requires
        messages.len() > 0 ==> messages.last().text != text || messages.last().source == source,
    ensures
        with_message(messages, text, source) == messages.push(MessageModel { text, source }),
{
}

/// No message is lost or reordered: recording one more keeps the texts of all before, in their
/// places.
pub proof fn law_recording_keeps_the_texts(
    messages: Seq<MessageModel>,
    text: Seq<char>,
    source: UserMessageSource,
)
    ensures
        messages.len() <= with_message(messages, text, source).len() <= messages.len() + 1,
        forall|i: int|
            0 <= i < messages.len() ==> #[trigger] with_message(messages, text, source)[i].text
                == messages[i].text,
        with_message(messages, text, source).last().text == text,
{
}

/// The other record of the last message, in the other way, adds nothing: it leaves every text and
/// makes the last message count as an event.
pub proof fn law_the_other_record_is_collapsed(
    messages: Seq<MessageModel>,
    text: Seq<char>,
    source: UserMessageSource,
)
    requires
        messages.len() > 0,
        messages.last().text == text,
        messages.last().source != source,
    ensures
        ({
            let after = with_message(messages, text, source);
            &&& after.len() == messages.len()
            &&& after.drop_last() == messages.drop_last()
            &&& after.last().text == text
            &&& after.last().source == UserMessageSource::Event
        }),
{
    assert(with_message(messages, text, source).drop_last() =~= messages.drop_last());
}

/// A line that is not blank and records a user message, as an event or as a response item, is
/// gathered with the whole of its trimmed text, whatever characters that holds, unless nothing is
/// left of it. The message comes last; all before it keep their texts and places. It adds nothing
/// only if it is the other record of the message before it.
pub proof fn law_a_user_message_is_gathered_whole(
    lines: Seq<RolloutLine>,
    line: RolloutLine,
    message: String,
    source: UserMessageSource,
)
    requires
        exists|i: int| 0 <= i < line.line@.len() && !is_white_space(#[trigger] line.line@[i]),
        line.item == Some(
            match source {
                UserMessageSource::Event => RolloutItem::EventMsg(EventMsg::UserMessage(message)),
                UserMessageSource::ResponseItem => RolloutItem::ResponseItem(
                    Some(TurnItem::UserMessage(message)),
                ),
            },
        ),
        exists|i: int| 0 <= i < message@.len() && !is_white_space(#[trigger] message@[i]),
    ensures
        ({
            let before = gathered(lines);
            let after = gathered(lines.push(line));
            let text = trimmed(message@);
            let is_other_record = before.len() > 0 && before.last().text == text
                && before.last().source != source;
            &&& text.len() > 0
            &&& after.len() == before.len() + (if is_other_record {
                0int
            } else {
                1int
            })
            &&& after.last().text == text
            &&& after.last().source == (if is_other_record {
                UserMessageSource::Event
            } else {
                source
            })
            &&& forall|i: int|
                0 <= i < before.len() ==> (#[trigger] after[i]).text == before[i].text
            &&& forall|i: int| 0 <= i < before.len() - 1 ==> #[trigger] after[i] == before[i]
            &&& !is_other_record ==> after.drop_last() == before
        }),
{
    lemma_blank_iff_nothing_left(line.line@);
    lemma_blank_iff_nothing_left(message@);
    assert(!is_blank(line.line@));
    assert(!is_blank(message@));
    assert(lines.push(line).drop_last() =~= lines);
    let before = gathered(lines);
    assert(before.push(MessageModel { text: trimmed(message@), source }).drop_last() =~= before);
}

/// Lines that are blank, that cannot be read, that record anything but a user message, or one that
/// is nothing but white space, leave what is gathered as it is. Of no lines nothing is gathered.
pub proof fn law_other_lines_are_passed_over(lines: Seq<RolloutLine>, line: RolloutLine)
    requires
        ({
            ||| forall|i: int|
                0 <= i < line.line@.len() ==> is_white_space(#[trigger] line.line@[i])
            ||| match line.item {
                Some(RolloutItem::EventMsg(EventMsg::UserMessage(message))) => forall|i: int|
                    0 <= i < message@.len() ==> is_white_space(#[trigger] message@[i]),
                Some(RolloutItem::ResponseItem(Some(TurnItem::UserMessage(message)))) => forall|
                    i: int,
                |
                    0 <= i < message@.len() ==> is_white_space(#[trigger] message@[i]),
                _ => true,
            }
        }),
    ensures
        gathered(lines.push(line)) == gathered(lines),
        gathered(Seq::<RolloutLine>::empty()).len() == 0,
{
    assert(lines.push(line).drop_last() =~= lines);
    match line.item {
        Some(RolloutItem::EventMsg(EventMsg::UserMessage(message))) => {
            lemma_blank_iff_nothing_left(message@);
        },
        Some(RolloutItem::ResponseItem(Some(TurnItem::UserMessage(message)))) => {
            lemma_blank_iff_nothing_left(message@);
        },
        _ => {},
    }
}

/// The user message that the last line records is the first entry, with the whole of its trimmed
/// text.
pub proof fn law_the_newest_prompt_is_the_first_entry(
    thread_id: ThreadId,
    lines: Seq<RolloutLine>,
    line: RolloutLine,
    message: String,
    source: UserMessageSource,
)
    requires
        exists|i: int| 0 <= i < line.line@.len() && !is_white_space(#[trigger] line.line@[i]),
        line.item == Some(
            match source {
                UserMessageSource::Event => RolloutItem::EventMsg(EventMsg::UserMessage(message)),
                UserMessageSource::ResponseItem => RolloutItem::ResponseItem(
                    Some(TurnItem::UserMessage(message)),
                ),
            },
        ),
        exists|i: int| 0 <= i < message@.len() && !is_white_space(#[trigger] message@[i]),
    ensures
        ({
            let before = thread_entries(thread_id, lines);
            let after = thread_entries(thread_id, lines.push(line));
            &&& after.len() > 0
            &&& after.first().thread_id == thread_id
            &&& after.first().text == trimmed(message@)
            &&& after == before || after.drop_first() == before
            &&& after.drop_first() != before ==> before.len() > 0 && before.first().text == trimmed(
                message@,
            )
        }),
{
    law_a_user_message_is_gathered_whole(lines, line, message, source);
    let before = gathered(lines);
    let after = gathered(lines.push(line));
    if after.len() == before.len() {
        assert(thread_entries(thread_id, lines.push(line)) =~= thread_entries(thread_id, lines));
    } else {
        assert(thread_entries(thread_id, lines.push(line)).drop_first() =~= thread_entries(
            thread_id,
            lines,
        ));
    }
}

/// Lists are taken for what they hold, in order.
pub proof fn law_messages_are_taken_as_they_are(messages: Seq<ThreadUserMessage>, i: int)
    requires
        0 <= i < messages.len(),
    ensures
        message_models(messages).len() == messages.len(),
        message_models(messages)[i].text == messages[i].text@,
        message_models(messages)[i].source == messages[i].source,
{
}

/// The texts of the messages are trimmed, and none is empty.
pub proof fn law_gathered_texts_are_trimmed(lines: Seq<RolloutLine>)
    ensures
        forall|i: int|
            0 <= i < gathered(lines).len() ==> {
                &&& (#[trigger] gathered(lines)[i]).text.len() > 0
                &&& trimmed(gathered(lines)[i].text) == gathered(lines)[i].text
            },
    decreases lines.len(),
{
    if lines.len() > 0 {
        law_gathered_texts_are_trimmed(lines.drop_last());
        if let Some(message) = recorded_message(lines.last()) {
            match lines.last().item {
                Some(RolloutItem::EventMsg(EventMsg::UserMessage(text))) => {
                    law_trimming_twice_is_trimming_once(text@);
                },
                Some(RolloutItem::ResponseItem(Some(TurnItem::UserMessage(text)))) => {
                    law_trimming_twice_is_trimming_once(text@);
                },
                _ => {},
            }
        }
    }
}

/// The newest message is the first entry, and the oldest the last.
pub proof fn law_entries_are_newest_first(thread_id: ThreadId, lines: Seq<RolloutLine>, i: int)
    requires
        0 <= i < gathered(lines).len(),
    ensures
        thread_entries(thread_id, lines).len() == gathered(lines).len(),
        thread_entries(thread_id, lines)[gathered(lines).len() - 1 - i] == (EntryModel {
            thread_id,
            text: gathered(lines)[i].text,
        }),
{
}

} // verus!
