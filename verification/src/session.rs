//! The steps of a chat session: what each command and each turn does to the
//! session store, and what the caller is to do next.

use crate::client::{
    emotion_label, emotion_level, ended_early, get_answer, Answer, Completion,
    EmotionParseError, TokensUsage,
};
use crate::compress::{compressed, long_term_memories_of, CompressError};
use crate::decimal::{Decimal, MICROS_PER_UNIT};
use crate::store::{SessionState, SessionStore};
use crate::text::{join_words, joined};
use crate::time::{wall_clock, Timestamp};
use crate::types::{
    AssistantMessage, Emotion, LongTermMemory, MemoryQuant, SystemMessage, UserMessage,
};
use vstd::prelude::*;
use vstd::string::StringExecFns;

verus! {

/// The commands that act on the memory.
#[derive(Debug)]
pub enum Mem {
    /// Drop what this session has added.
    Clear,
    /// Drop everything behind the seed.
    ClearAll,
    /// Show the transcript as data.
    Dump,
    /// Show the transcript as a conversation.
    Log,
    /// Compress the transcript.
    Compress { retention_amount: Decimal },
}

/// The commands of the shell.
#[derive(Debug)]
pub enum Command {
    Mem(Mem),
    /// Send a system message made of these words.
    Sys { v: Vec<String> },
    /// Have the assistant reply to the transcript as it stands.
    Respond,
    Exit,
}

/// What the caller is to do once a command has run.
#[derive(Debug)]
pub enum Reaction {
    /// Report that `count` entries were cleared.
    Cleared { count: usize },
    /// Show this copy of the transcript as data.
    Dump { transcript: Vec<MemoryQuant> },
    /// Show this copy of the transcript as a conversation.
    Log { transcript: Vec<MemoryQuant> },
    /// Report that the memory was compressed, and these long-term memories,
    /// which the compressed transcript has left out.
    Compressed { long_term_memories: Vec<LongTermMemory> },
    /// Report that the retention amount was refused.
    Refused { error: CompressError },
    /// Report that the system message was sent.
    SystemMessageSent,
    /// Ask the collaborators to reply to this copy of the transcript, then
    /// finish the turn with what they answer.
    Respond { history: Vec<MemoryQuant> },
    /// End the session.
    Exit,
}

/// `after` is `before` with one entry added at the end.
pub open spec fn grown_by_one(before: SessionState, after: SessionState) -> bool {
    &&& after.transcript.len() == before.transcript.len() + 1
    &&& after.transcript.drop_last() == before.transcript
    &&& after.baseline_len == before.baseline_len
    &&& after.seed_len == before.seed_len
}

/// Running `command` at the time `now` takes the session from `before` to
/// `after` and calls for `reaction`.
pub open spec fn executed(
    before: SessionState,
    command: Command,
    now: Timestamp,
    after: SessionState,
    reaction: Reaction,
) -> bool {
    match command {
        Command::Mem(Mem::Clear) => {
            &&& after == before.drain_from(before.baseline_len)
            &&& reaction == (Reaction::Cleared {
                count: before.drained(before.baseline_len) as usize,
            })
        },
        Command::Mem(Mem::ClearAll) => {
            &&& after == before.drain_from(before.seed_len)
            &&& reaction == (Reaction::Cleared { count: before.drained(before.seed_len) as usize })
        },
        Command::Mem(Mem::Dump) => {
            &&& after == before
            &&& reaction matches Reaction::Dump { transcript }
            &&& transcript@ == before.transcript
        },
        Command::Mem(Mem::Log) => {
            &&& after == before
            &&& reaction matches Reaction::Log { transcript }
            &&& transcript@ == before.transcript
        },
        Command::Mem(Mem::Compress { retention_amount }) => if retention_amount.is_fraction() {
            &&& after == before.replace(compressed(before.transcript, retention_amount))
            &&& reaction matches Reaction::Compressed { long_term_memories }
            &&& long_term_memories@ == long_term_memories_of(before.transcript)
        } else {
            &&& after == before
            &&& reaction == (Reaction::Refused { error: CompressError::RetentionOutOfRange })
        },
        Command::Sys { v } => {
            &&& grown_by_one(before, after)
            &&& after.transcript.last() matches MemoryQuant::System(message)
            &&& message.content@ == joined(v.deep_view())
            &&& message.time == now
            &&& reaction is SystemMessageSent
        },
        Command::Respond => {
            &&& after == before
            &&& reaction matches Reaction::Respond { history }
            &&& history@ == before.transcript
        },
        Command::Exit => after == before && reaction is Exit,
    }
}

/// What the assistant is first told: who is who, and what it remembers.
pub open spec fn seed_summary(
    user_name: Seq<char>,
    agent_name: Seq<char>,
    initial_memory: Seq<char>,
) -> Seq<char> {
    "My name is "@ + user_name + ". Your name is "@ + agent_name + ". "@ + initial_memory
}

/// The transcript that a fresh session starts from: one long-term memory
/// that holds the seed summary, felt as a full sense of existence, made at
/// the time `now`.
pub open spec fn is_seed(
    seed: Seq<MemoryQuant>,
    user_name: Seq<char>,
    agent_name: Seq<char>,
    initial_memory: Seq<char>,
    now: Timestamp,
) -> bool {
    &&& seed.len() == 1
    &&& seed[0] matches MemoryQuant::LongTermMemory(memory)
    &&& memory.summary@ == seed_summary(user_name, agent_name, initial_memory)
    &&& memory.emotion.emotion@ == "Sense of existence"@
    &&& memory.emotion.level == (Decimal { micros: MICROS_PER_UNIT })
    &&& memory.time == now
}

/// The seed transcript, stamped with the time `now`.
pub fn seed_transcript_at(
    user_name: &str,
    agent_name: &str,
    initial_memory: &str,
    now: Timestamp,
) -> (seed: Vec<MemoryQuant>)
    ensures
        is_seed(seed@, user_name@, agent_name@, initial_memory@, now),
{
    let mut summary = String::from_str("My name is ");
    summary.append(user_name);
    summary.append(". Your name is ");
    summary.append(agent_name);
    summary.append(". ");
    summary.append(initial_memory);
    let memory = LongTermMemory {
        summary,
        emotion: Emotion {
            emotion: String::from_str("Sense of existence"),
            level: Decimal { micros: MICROS_PER_UNIT },
        },
        time: now,
    };
    let mut seed: Vec<MemoryQuant> = Vec::new();
    seed.push(MemoryQuant::LongTermMemory(memory));
    seed
}

/// The seed transcript, stamped with the time that the clock shows.
pub fn seed_transcript(user_name: &str, agent_name: &str, initial_memory: &str) -> (seed: Vec<
    MemoryQuant,
>)
    ensures
        exists|now: Timestamp| #[trigger]
            is_seed(seed@, user_name@, agent_name@, initial_memory@, now),
{
    let now = wall_clock();
    let seed = seed_transcript_at(user_name, agent_name, initial_memory, now);
    assert(is_seed(seed@, user_name@, agent_name@, initial_memory@, now));
    seed
}

/// What has been said to the assistant at the time `now` is in the
/// transcript, and `history` is a copy of the transcript with it.
pub open spec fn heard(
    before: SessionState,
    content: String,
    now: Timestamp,
    after: SessionState,
    history: Seq<MemoryQuant>,
) -> bool {
    &&& after == before.append(MemoryQuant::User(UserMessage { content, time: now }))
    &&& history == after.transcript
}

/// The turn has ended at the time `now`. Where the emotion reply was
/// understood, the assistant's entry is in the transcript and `outcome`
/// holds a copy of it with the tokens used. Where it was not, the
/// transcript is as it was.
pub open spec fn turn_finished(
    before: SessionState,
    completion: Completion,
    emotion_reply: Seq<char>,
    now: Timestamp,
    after: SessionState,
    outcome: Result<Answer, EmotionParseError>,
) -> bool {
    match outcome {
        Ok(answer) => {
            &&& emotion_level(emotion_reply) == Ok::<Decimal, EmotionParseError>(
                answer.message.emotion.level,
            )
            &&& answer.message.emotion.emotion@ == emotion_label(emotion_reply)
            &&& answer.message.content == completion.text
            &&& answer.message.time == now
            &&& answer.tokens_usage == TokensUsage(completion.total_tokens)
            &&& answer.unfinished == ended_early(completion.finish_reason)
            &&& after == before.append(MemoryQuant::Assistant(answer.message))
        },
        Err(e) => {
            &&& emotion_level(emotion_reply) == Err::<Decimal, EmotionParseError>(e)
            &&& after == before
        },
    }
}

impl SessionStore {
    /// Runs a command at the time `now`.
    pub fn execute_at(&mut self, command: Command, now: Timestamp) -> (reaction: Reaction)
        ensures
            executed(old(self)@, command, now, final(self)@, reaction),
    {
        match command {
            Command::Mem(Mem::Clear) => {
                let count = self.clear_session();
                Reaction::Cleared { count }
            },
            Command::Mem(Mem::ClearAll) => {
                let count = self.clear_all();
                Reaction::Cleared { count }
            },
            Command::Mem(Mem::Dump) => Reaction::Dump { transcript: self.snapshot_clone() },
            Command::Mem(Mem::Log) => Reaction::Log { transcript: self.snapshot_clone() },
            Command::Mem(Mem::Compress { retention_amount }) => {
                match self.compress(retention_amount) {
                    Ok(long_term_memories) => Reaction::Compressed { long_term_memories },
                    Err(error) => Reaction::Refused { error },
                }
            },
            Command::Sys { v } => {
                let content = join_words(&v);
                let ghost before = self@;
                self.append(MemoryQuant::System(SystemMessage { content, time: now }));
                assert(self@.transcript.drop_last() == before.transcript);
                Reaction::SystemMessageSent
            },
            Command::Respond => Reaction::Respond { history: self.snapshot_clone() },
            Command::Exit => Reaction::Exit,
        }
    }

    /// Runs a command at the time that the clock shows.
    pub fn execute(&mut self, command: Command) -> (reaction: Reaction)
        ensures
            exists|now: Timestamp| #[trigger]
                executed(old(self)@, command, now, final(self)@, reaction),
    {
        let now = wall_clock();
        let ghost before = self@;
        let reaction = self.execute_at(command, now);
        assert(executed(before, command, now, self@, reaction));
        reaction
    }

    /// Takes in what was said to the assistant at the time `now` and hands
    /// out the transcript that the collaborators are to reply to.
    pub fn hear_at(&mut self, content: String, now: Timestamp) -> (history: Vec<MemoryQuant>)
        ensures
            heard(old(self)@, content, now, final(self)@, history@),
    {
        self.append(MemoryQuant::User(UserMessage { content, time: now }));
        self.snapshot_clone()
    }

    /// Takes in what was said to the assistant at the time that the clock
    /// shows.
    pub fn hear(&mut self, content: String) -> (history: Vec<MemoryQuant>)
        ensures
            exists|now: Timestamp| #[trigger]
                heard(old(self)@, content, now, final(self)@, history@),
    {
        let now = wall_clock();
        let ghost before = self@;
        let history = self.hear_at(content, now);
        assert(heard(before, content, now, self@, history@));
        history
    }

    /// Ends a turn at the time `now` with what the two collaborators have
    /// answered.
    pub fn finish_turn_at(
        &mut self,
        completion: Completion,
        emotion_reply: &str,
        now: Timestamp,
    ) -> (outcome: Result<Answer, EmotionParseError>)
        ensures
            turn_finished(old(self)@, completion, emotion_reply@, now, final(self)@, outcome),
    {
        match get_answer(completion, emotion_reply, now) {
            Ok(answer) => {
                self.append(MemoryQuant::Assistant(answer.message.clone()));
                Ok(answer)
            },
            Err(e) => Err(e),
        }
    }

    /// Ends a turn at the time that the clock shows.
    pub fn finish_turn(&mut self, completion: Completion, emotion_reply: &str) -> (outcome: Result<
        Answer,
        EmotionParseError,
    >)
        ensures
            exists|now: Timestamp| #[trigger]
                turn_finished(old(self)@, completion, emotion_reply@, now, final(self)@, outcome),
    {
        let now = wall_clock();
        let ghost before = self@;
        let outcome = self.finish_turn_at(completion, emotion_reply, now);
        assert(turn_finished(before, completion, emotion_reply@, now, self@, outcome));
        outcome
    }
}

} // verus!
