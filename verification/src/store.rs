//! The session store: the live transcript and the two lengths that mark
//! where clearing stops.
//!
//! Every operation takes the store by exclusive reference and is one step
//! from a state to the next. A caller that shares a store between threads
//! keeps it behind one lock and holds the lock for exactly one operation.

use crate::compress::{compress_memory, compressed, long_term_memories_of, CompressError};
use crate::decimal::Decimal;
use crate::types::{clone_transcript, LongTermMemory, MemoryQuant};
use vstd::prelude::*;

verus! {

/// The state of a session as a mathematical value.
pub struct SessionState {
    /// The conversation so far, oldest entry first.
    pub transcript: Seq<MemoryQuant>,
    /// How long the transcript was when the session started.
    pub baseline_len: nat,
    /// How long the seed transcript is that a fresh session starts from.
    pub seed_len: nat,
}

impl SessionState {
    /// The state in which a session starts: with the loaded transcript, or
    /// with the seed where nothing was loaded.
    pub open spec fn start(loaded: Option<Seq<MemoryQuant>>, seed: Seq<MemoryQuant>) -> SessionState {
        let transcript = match loaded {
            Some(t) => t,
            None => seed,
        };
        SessionState { transcript, baseline_len: transcript.len(), seed_len: seed.len() }
    }

    pub open spec fn append(self, quantum: MemoryQuant) -> SessionState {
        SessionState { transcript: self.transcript.push(quantum), ..self }
    }

    /// The state after the entries of `added` have been appended in turn.
    pub open spec fn append_all(self, added: Seq<MemoryQuant>) -> SessionState
        decreases added.len(),
    {
        if added.len() == 0 {
            self
        } else {
            self.append_all(added.drop_last()).append(added.last())
        }
    }

    /// How many entries `drain_from(index)` removes: those at `index` and
    /// behind it, none where `index` lies beyond the end.
    pub open spec fn drained(self, index: nat) -> nat {
        if index <= self.transcript.len() {
            (self.transcript.len() - index) as nat
        } else {
            0
        }
    }

    pub open spec fn drain_from(self, index: nat) -> SessionState {
        if index <= self.transcript.len() {
            SessionState { transcript: self.transcript.take(index as int), ..self }
        } else {
            self
        }
    }

    pub open spec fn replace(self, transcript: Seq<MemoryQuant>) -> SessionState {
        SessionState { transcript, ..self }
    }
}

/// The transcript of one session with its bookkeeping.
#[derive(Debug)]
pub struct SessionStore {
    transcript: Vec<MemoryQuant>,
    baseline_len: usize,
    seed_len: usize,
}

impl View for SessionStore {
    type V = SessionState;

    closed spec fn view(&self) -> SessionState {
        SessionState {
            transcript: self.transcript@,
            baseline_len: self.baseline_len as nat,
            seed_len: self.seed_len as nat,
        }
    }
}

impl SessionStore {
    /// Starts a session from the transcript that was loaded, or from `seed`
    /// where none was. The baseline is the length of what the session starts
    /// with.
    pub fn start(loaded: Option<Vec<MemoryQuant>>, seed: Vec<MemoryQuant>) -> (store: SessionStore)
        ensures
            store@ == SessionState::start(
                match loaded {
                    Some(t) => Some(t@),
                    None => None,
                },
                seed@,
            ),
    {
        let seed_len = seed.len();
        let transcript = match loaded {
            Some(t) => t,
            None => seed,
        };
        let baseline_len = transcript.len();
        SessionStore { transcript, baseline_len, seed_len }
    }

    /// Adds an entry at the end.
    pub fn append(&mut self, quantum: MemoryQuant)
        ensures
            final(self)@ == old(self)@.append(quantum),
    {
        self.transcript.push(quantum);
    }

    /// An independent copy of the transcript as it stands.
    pub fn snapshot_clone(&self) -> (copy: Vec<MemoryQuant>)
        ensures
            copy@ == self@.transcript,
    {
        clone_transcript(&self.transcript)
    }

    /// Removes every entry at `index` and behind it and says how many went.
    /// An `index` beyond the end removes nothing.
    pub fn drain_from(&mut self, index: usize) -> (count: usize)
        ensures
            final(self)@ == old(self)@.drain_from(index as nat),
            count == old(self)@.drained(index as nat),
    {
        let len = self.transcript.len();
        if index <= len {
            self.transcript.truncate(index);
            len - index
        } else {
            0
        }
    }

    /// Puts `transcript` in the place of the whole transcript.
    pub fn replace(&mut self, transcript: Vec<MemoryQuant>)
        ensures
            final(self)@ == old(self)@.replace(transcript@),
    {
        self.transcript = transcript;
    }

    pub fn len(&self) -> (n: usize)
        ensures
            n == self@.transcript.len(),
    {
        self.transcript.len()
    }

    pub fn baseline_len(&self) -> (n: usize)
        ensures
            n == self@.baseline_len,
    {
        self.baseline_len
    }

    pub fn seed_len(&self) -> (n: usize)
        ensures
            n == self@.seed_len,
    {
        self.seed_len
    }

    /// Drops what this session has added: everything behind the baseline.
    /// Where the transcript has become shorter than the baseline, nothing.
    pub fn clear_session(&mut self) -> (count: usize)
        ensures
            final(self)@ == old(self)@.drain_from(old(self)@.baseline_len),
            count == old(self)@.drained(old(self)@.baseline_len),
    {
        let index = self.baseline_len;
        self.drain_from(index)
    }

    /// Drops everything behind the seed.
    pub fn clear_all(&mut self) -> (count: usize)
        ensures
            final(self)@ == old(self)@.drain_from(old(self)@.seed_len),
            count == old(self)@.drained(old(self)@.seed_len),
    {
        let index = self.seed_len;
        self.drain_from(index)
    }

    /// Compresses a copy of the transcript and puts the result in its place.
    /// Hands back the long-term memories that the compressed transcript
    /// leaves out. A retention amount outside `[0, 1]` is refused and the
    /// store stays as it was.
    pub fn compress(&mut self, retention_amount: Decimal) -> (r: Result<
        Vec<LongTermMemory>,
        CompressError,
    >)
        ensures
            match r {
                Ok(memories) => {
                    &&& retention_amount.is_fraction()
                    &&& final(self)@ == old(self)@.replace(
                        compressed(old(self)@.transcript, retention_amount),
                    )
                    &&& memories@ == long_term_memories_of(old(self)@.transcript)
                },
                Err(e) => {
                    &&& !retention_amount.is_fraction()
                    &&& e == CompressError::RetentionOutOfRange
                    &&& final(self)@ == old(self)@
                },
            },
    {
        let snapshot = self.snapshot_clone();
        match compress_memory(snapshot, retention_amount) {
            Ok(compression) => {
                self.replace(compression.transcript);
                Ok(compression.long_term_memories)
            },
            Err(e) => Err(e),
        }
    }
}

/// However many of a run of appends have been made when a snapshot is
/// taken, the snapshot holds the transcript as the run found it, followed by
/// the entries appended so far, each of them whole. It is a prefix of the
/// transcript that the run ends with.
pub proof fn lemma_snapshot_between_appends(
    state: SessionState,
    added: Seq<MemoryQuant>,
    done: int,
)
    requires
        0 <= done <= added.len(),
    ensures
        state.append_all(added.take(done)).transcript == state.transcript + added.take(done),
        state.append_all(added.take(done)).transcript == state.append_all(added).transcript.take(
            state.transcript.len() + done,
        ),
        state.append_all(added.take(done)).baseline_len == state.baseline_len,
        state.append_all(added.take(done)).seed_len == state.seed_len,
{
    lemma_append_all(state, added.take(done));
    lemma_append_all(state, added);
    assert(state.transcript + added.take(done) =~= (state.transcript + added).take(
        state.transcript.len() + done,
    ));
}

proof fn lemma_append_all(state: SessionState, added: Seq<MemoryQuant>)
    ensures
        state.append_all(added).transcript == state.transcript + added,
        state.append_all(added).baseline_len == state.baseline_len,
        state.append_all(added).seed_len == state.seed_len,
    decreases added.len(),
{
    if added.len() > 0 {
        lemma_append_all(state, added.drop_last());
        assert((state.transcript + added.drop_last()).push(added.last()) =~= state.transcript
            + added);
    } else {
        assert(state.transcript + added =~= state.transcript);
    }
}

} // verus!
