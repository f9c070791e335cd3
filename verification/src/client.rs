//! The boundary to the completion and emotion collaborators: what is sent
//! to them and what is made of their replies.

use crate::decimal::{parse_decimal, parsed_decimal, Decimal, DecimalError, MICROS_PER_UNIT};
use crate::text::{chars_of, find_char, first_index_of, trim_bounds, trimmed};
use crate::time::Timestamp;
use crate::types::{AssistantMessage, Emotion, MemoryQuant};
use vstd::prelude::*;
use vstd::string::{StrSliceExecFns, StringExecFns};

verus! {

/// The most tokens that a reply may take.
pub const MAX_REPLY_TOKENS: i32 = 100;

/// Who a message of the prompt speaks as.
#[derive(Clone, Copy, Debug, PartialEq, Eq, Structural)]
pub enum Role {
    System,
    Assistant,
    User,
}

/// One message of the prompt that a collaborator is given.
#[derive(Debug)]
pub struct Message {
    pub role: Role,
    pub content: String,
}

/// The prompt message that stands for a transcript entry: its text under
/// the role of its kind. A long-term memory speaks as the system. Emotion
/// and time are left behind.
pub open spec fn prompt_message(m: MemoryQuant) -> Message {
    match m {
        MemoryQuant::User(message) => Message { role: Role::User, content: message.content },
        MemoryQuant::Assistant(message) => Message {
            role: Role::Assistant,
            content: message.content,
        },
        MemoryQuant::System(message) => Message { role: Role::System, content: message.content },
        MemoryQuant::LongTermMemory(mem) => Message { role: Role::System, content: mem.summary },
    }
}

/// The prompt messages that stand for the entries of a transcript.
pub open spec fn prompt_messages(t: Seq<MemoryQuant>) -> Seq<Message> {
    t.map_values(|m: MemoryQuant| prompt_message(m))
}

/// Turns a transcript entry into a prompt message. The entry's emotion and
/// time are lost.
pub fn memory_quant_to_openai_message(m: MemoryQuant) -> (message: Message)
    ensures
        message == prompt_message(m),
{
    match m {
        MemoryQuant::User(message) => Message { role: Role::User, content: message.content },
        MemoryQuant::Assistant(message) => Message {
            role: Role::Assistant,
            content: message.content,
        },
        MemoryQuant::System(message) => Message { role: Role::System, content: message.content },
        MemoryQuant::LongTermMemory(mem) => Message { role: Role::System, content: mem.summary },
    }
}

/// The prompt that asks for a reply: the transcript, entry by entry.
pub fn answer_prompt(messages: Vec<MemoryQuant>) -> (prompt: Vec<Message>)
    ensures
        prompt@ == prompt_messages(messages@),
{
    let ghost t = messages@;
    let mut prompt: Vec<Message> = Vec::new();
    for m in it: messages
        invariant
            it.seq() == t,
            prompt@ == prompt_messages(t.take(it.index() as int)),
    {
        proof {
            let n = it.index() as int;
            assert(prompt_messages(t.take(n + 1)) =~= prompt_messages(t.take(n)).push(
                prompt_message(m),
            ));
        }
        prompt.push(memory_quant_to_openai_message(m));
    }
    proof {
        assert(t.take(t.len() as int) == t);
    }
    prompt
}

/// What the emotion collaborator is told to do.
pub open spec fn emotion_instruction() -> Seq<char> {
    "Tell in one word your emotion and level from 0 to 100 (Example: \"Neutral, 4\")"@
}

/// The prompt that asks for the emotion of the reply: the transcript,
/// followed by one system message that holds the instruction.
pub fn emotion_prompt(messages: Vec<MemoryQuant>) -> (prompt: Vec<Message>)
    ensures
        prompt@.len() == messages@.len() + 1,
        prompt@.drop_last() == prompt_messages(messages@),
        prompt@.last().role == Role::System,
        prompt@.last().content@ == emotion_instruction(),
{
    let mut prompt = answer_prompt(messages);
    let ghost history = prompt@;
    prompt.push(
        Message {
            role: Role::System,
            content: String::from_str(
                "Tell in one word your emotion and level from 0 to 100 (Example: \"Neutral, 4\")",
            ),
        },
    );
    assert(prompt@.drop_last() == history);
    prompt
}

/// Why the reply of the emotion collaborator was not understood.
#[derive(Clone, Copy, Debug, PartialEq, Eq, Structural)]
pub enum EmotionParseError {
    /// The reply holds no comma.
    MissingComma,
    /// What follows the first comma is no decimal number.
    LevelNotANumber,
    /// The level is a number outside the range from 0 to 100.
    LevelOutOfRange,
}

/// The label that a reply names: what stands in front of its first comma,
/// without the white space around it.
pub open spec fn emotion_label(reply: Seq<char>) -> Seq<char> {
    trimmed(reply.take(first_index_of(reply, ',') as int))
}

/// The level that a reply names: the number behind its first comma, which
/// counts hundredths, as a fraction of one.
pub open spec fn emotion_level(reply: Seq<char>) -> Result<Decimal, EmotionParseError> {
    let comma = first_index_of(reply, ',') as int;
    if comma >= reply.len() {
        Err(EmotionParseError::MissingComma)
    } else {
        match parsed_decimal(trimmed(reply.skip(comma + 1))) {
            Err(DecimalError::Malformed) => Err(EmotionParseError::LevelNotANumber),
            Err(DecimalError::TooLarge) => Err(EmotionParseError::LevelOutOfRange),
            Ok(percent) => if 0 <= percent.micros <= 100 * MICROS_PER_UNIT {
                Ok(Decimal { micros: (percent.micros / 100) as i64 })
            } else {
                Err(EmotionParseError::LevelOutOfRange)
            },
        }
    }
}

/// Reads a reply of the form `<label>, <number from 0 to 100>`.
pub fn parse_emotion(reply: &str) -> (r: Result<Emotion, EmotionParseError>)
    ensures
        match r {
            Ok(emotion) => {
                &&& emotion_level(reply@) == Ok::<Decimal, EmotionParseError>(emotion.level)
                &&& emotion.emotion@ == emotion_label(reply@)
                &&& emotion.wf()
            },
            Err(e) => emotion_level(reply@) == Err::<Decimal, EmotionParseError>(e),
        },
{
    let chars = chars_of(reply);
    let len: usize = chars.len();
    let comma: usize = find_char(&chars, 0, len, ',');
    assert(chars@.subrange(0, len as int) == reply@);
    if comma >= len {
        return Err(EmotionParseError::MissingComma);
    }
    let (label_from, label_to) = trim_bounds(&chars, 0, comma);
    let (level_from, level_to) = trim_bounds(&chars, comma + 1, len);
    assert(chars@.subrange(0, comma as int) == reply@.take(comma as int));
    assert(chars@.subrange(comma + 1, len as int) == reply@.skip(comma + 1));
    match parse_decimal(&chars, level_from, level_to) {
        Err(DecimalError::Malformed) => Err(EmotionParseError::LevelNotANumber),
        Err(DecimalError::TooLarge) => Err(EmotionParseError::LevelOutOfRange),
        Ok(percent) => {
            if 0 <= percent.micros && percent.micros <= 100 * MICROS_PER_UNIT {
                let label = String::from_str(reply.substring_char(label_from, label_to));
                Ok(Emotion { emotion: label, level: Decimal { micros: percent.micros / 100 } })
            } else {
                Err(EmotionParseError::LevelOutOfRange)
            }
        },
    }
}

/// How many tokens a turn has used.
#[derive(Clone, Copy, Debug, PartialEq, Eq, Structural)]
pub struct TokensUsage(pub u32);

/// What the completion collaborator answered.
#[derive(Debug)]
pub struct Completion {
    pub text: String,
    pub finish_reason: Option<String>,
    pub total_tokens: u32,
}

/// What a turn has yielded: the assistant's entry for the transcript, the
/// tokens used, and whether the reply was cut short.
#[derive(Debug)]
pub struct Answer {
    pub message: AssistantMessage,
    pub tokens_usage: TokensUsage,
    /// The reply did not end of its own accord: a warning is due.
    pub unfinished: bool,
}

/// The reason for which a reply ended is another one than `stop`, or none is
/// given.
pub open spec fn ended_early(finish_reason: Option<String>) -> bool {
    match finish_reason {
        Some(reason) => reason@ != "stop"@,
        None => true,
    }
}

/// Puts the assistant's entry together from the two replies of a turn. The
/// entry carries the reply's text, the emotion that the emotion reply names
/// and the time `now`. Where the emotion reply is not understood there is no
/// entry.
pub fn get_answer(completion: Completion, emotion_reply: &str, now: Timestamp) -> (r: Result<
    Answer,
    EmotionParseError,
>)
    ensures
        match r {
            Ok(answer) => {
                &&& emotion_level(emotion_reply@) == Ok::<Decimal, EmotionParseError>(
                    answer.message.emotion.level,
                )
                &&& answer.message.emotion.emotion@ == emotion_label(emotion_reply@)
                &&& answer.message.content == completion.text
                &&& answer.message.time == now
                &&& answer.tokens_usage == TokensUsage(completion.total_tokens)
                &&& answer.unfinished == ended_early(completion.finish_reason)
            },
            Err(e) => emotion_level(emotion_reply@) == Err::<Decimal, EmotionParseError>(e),
        },
{
    let emotion = match parse_emotion(emotion_reply) {
        Ok(emotion) => emotion,
        Err(e) => {
            return Err(e);
        },
    };
    let unfinished = match &completion.finish_reason {
        Some(reason) => {
            let stop = String::from_str("stop");
            !(*reason == stop)
        },
        None => true,
    };
    Ok(
        Answer {
            message: AssistantMessage { content: completion.text, emotion, time: now },
            tokens_usage: TokensUsage(completion.total_tokens),
            unfinished,
        },
    )
}

} // verus!
