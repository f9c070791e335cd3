//! The transcript's entries: four kinds of memory quantum and the emotion
//! that assistant replies and long-term memories carry.

use crate::decimal::Decimal;
use crate::time::Timestamp;
use vstd::prelude::*;

verus! {

/// A classified emotion: its label and how strongly it is felt.
#[derive(Debug)]
pub struct Emotion {
    pub emotion: String,
    pub level: Decimal,
}

/// Why an emotion could not be built.
#[derive(Clone, Copy, Debug, PartialEq, Eq, Structural)]
pub enum EmotionError {
    /// The level lies outside the interval from zero to one.
    LevelOutOfRange,
}

#[derive(Debug)]
pub struct UserMessage {
    pub content: String,
    pub time: Timestamp,
}

#[derive(Debug)]
pub struct AssistantMessage {
    pub content: String,
    pub emotion: Emotion,
    pub time: Timestamp,
}

#[derive(Debug)]
pub struct SystemMessage {
    pub content: String,
    pub time: Timestamp,
}

#[derive(Debug)]
pub struct LongTermMemory {
    pub summary: String,
    pub emotion: Emotion,
    pub time: Timestamp,
}

/// One entry of a transcript.
#[derive(Debug)]
pub enum MemoryQuant {
    User(UserMessage),
    Assistant(AssistantMessage),
    System(SystemMessage),
    LongTermMemory(LongTermMemory),
}

impl Emotion {
    /// The level is normalized: it lies between zero and one.
    pub open spec fn wf(self) -> bool {
        self.level.is_fraction()
    }

    /// Builds an emotion, or refuses a level outside `[0, 1]`. The level is
    /// never clamped.
    pub fn new(emotion: String, level: Decimal) -> (r: Result<Emotion, EmotionError>)
        ensures
            level.is_fraction() ==> r == Ok::<Emotion, EmotionError>(Emotion { emotion, level }),
            !level.is_fraction() ==> r == Err::<Emotion, EmotionError>(
                EmotionError::LevelOutOfRange,
            ),
    {
        if level.in_unit_interval() {
            Ok(Emotion { emotion, level })
        } else {
            Err(EmotionError::LevelOutOfRange)
        }
    }
}

impl Clone for Emotion {
    fn clone(&self) -> (r: Self)
        ensures
            r == *self,
    {
        Emotion { emotion: self.emotion.clone(), level: self.level }
    }
}

impl Clone for UserMessage {
    fn clone(&self) -> (r: Self)
        ensures
            r == *self,
    {
        UserMessage { content: self.content.clone(), time: self.time }
    }
}

impl Clone for AssistantMessage {
    fn clone(&self) -> (r: Self)
        ensures
            r == *self,
    {
        AssistantMessage {
            content: self.content.clone(),
            emotion: self.emotion.clone(),
            time: self.time,
        }
    }
}

impl Clone for SystemMessage {
    fn clone(&self) -> (r: Self)
        ensures
            r == *self,
    {
        SystemMessage { content: self.content.clone(), time: self.time }
    }
}

impl Clone for LongTermMemory {
    fn clone(&self) -> (r: Self)
        ensures
            r == *self,
    {
        LongTermMemory {
            summary: self.summary.clone(),
            emotion: self.emotion.clone(),
            time: self.time,
        }
    }
}

impl Clone for MemoryQuant {
    fn clone(&self) -> (r: Self)
        ensures
            r == *self,
    {
        match self {
            MemoryQuant::User(m) => MemoryQuant::User(m.clone()),
            MemoryQuant::Assistant(m) => MemoryQuant::Assistant(m.clone()),
            MemoryQuant::System(m) => MemoryQuant::System(m.clone()),
            MemoryQuant::LongTermMemory(m) => MemoryQuant::LongTermMemory(m.clone()),
        }
    }
}

impl MemoryQuant {
    /// Every emotion that the entry carries is normalized.
    pub open spec fn wf(self) -> bool {
        match self {
            MemoryQuant::User(_) => true,
            MemoryQuant::Assistant(m) => m.emotion.wf(),
            MemoryQuant::System(_) => true,
            MemoryQuant::LongTermMemory(m) => m.emotion.wf(),
        }
    }

    /// When the entry was created.
    pub open spec fn created(self) -> Timestamp {
        match self {
            MemoryQuant::User(m) => m.time,
            MemoryQuant::Assistant(m) => m.time,
            MemoryQuant::System(m) => m.time,
            MemoryQuant::LongTermMemory(m) => m.time,
        }
    }

    pub fn time(&self) -> (t: Timestamp)
        ensures
            t == self.created(),
    {
        match self {
            MemoryQuant::User(m) => m.time,
            MemoryQuant::Assistant(m) => m.time,
            MemoryQuant::System(m) => m.time,
            MemoryQuant::LongTermMemory(m) => m.time,
        }
    }
}

/// Copies a transcript entry by entry.
pub fn clone_transcript(transcript: &Vec<MemoryQuant>) -> (copy: Vec<MemoryQuant>)
    ensures
        copy@ == transcript@,
{
    transcript.clone()
}

} // verus!
