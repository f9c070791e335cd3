//! What holds of chunking and compression for every transcript.

use crate::compress::{
    chunk_quanta, chunks_of, compressed, condition_quanta,
    lemma_sorted_stably_commutes_with_filter, lemma_sorted_stably_is_idempotent,
    lemma_sorted_stably_is_stable, lemma_sorted_stably_orders, lemma_sorted_stably_permutes,
    lemma_stable_sort_is_unique, long_term_memories_of, pending_conditions, reassembled,
    retained_chunks, sorted_stably, tied_with, ChunkOrder, ChunkView, Condition,
};
use crate::decimal::{lemma_portion_bounds, portion, Decimal, MICROS_PER_UNIT};
use crate::types::MemoryQuant;
use vstd::prelude::*;

verus! {

/// How many of the first `i` entries of `t` are assistant replies.
pub open spec fn replies_before(t: Seq<MemoryQuant>, i: int) -> nat
    decreases i,
{
    if i <= 0 {
        0
    } else if t[i - 1] is Assistant {
        replies_before(t, i - 1) + 1
    } else {
        replies_before(t, i - 1)
    }
}

/// Where the run of entries that leads up to position `i` begins: just
/// behind the last assistant reply before `i`, or at the start of `t`.
pub open spec fn run_start(t: Seq<MemoryQuant>, i: int) -> int
    decreases i,
{
    if i <= 0 {
        0
    } else if t[i - 1] is Assistant {
        i
    } else {
        run_start(t, i - 1)
    }
}

/// The user and system entries of `t` at the positions from `from` up to,
/// but not including, `to`, in order.
pub open spec fn conditions_between(t: Seq<MemoryQuant>, from: int, to: int) -> Seq<Condition>
    decreases to - from,
{
    if to <= from {
        Seq::empty()
    } else {
        match t[to - 1] {
            MemoryQuant::User(m) => conditions_between(t, from, to - 1).push(Condition::User(m)),
            MemoryQuant::System(m) => conditions_between(t, from, to - 1).push(
                Condition::System(m),
            ),
            _ => conditions_between(t, from, to - 1),
        }
    }
}

/// The run that leads up to `i` holds no assistant reply and cannot be
/// extended to the front: it starts the transcript or follows a reply.
pub proof fn lemma_run_is_maximal(t: Seq<MemoryQuant>, i: int)
    requires
        0 <= i <= t.len(),
    ensures
        0 <= run_start(t, i) <= i,
        forall|j: int| run_start(t, i) <= j < i ==> !(#[trigger] t[j] is Assistant),
        run_start(t, i) > 0 ==> t[run_start(t, i) - 1] is Assistant,
    decreases i,
{
    if i > 0 && !(t[i - 1] is Assistant) {
        lemma_run_is_maximal(t, i - 1);
    }
}

proof fn lemma_scan_of_prefix(t: Seq<MemoryQuant>, i: int)
    requires
        0 <= i <= t.len(),
    ensures
        chunks_of(t.take(i)).len() == replies_before(t, i),
        pending_conditions(t.take(i)) == conditions_between(t, run_start(t, i), i),
    decreases i,
{
    if i > 0 {
        lemma_scan_of_prefix(t, i - 1);
        lemma_run_is_maximal(t, i - 1);
        assert(t.take(i).drop_last() == t.take(i - 1));
        assert(t.take(i).last() == t[i - 1]);
    }
}

proof fn lemma_chunks_of_prefix(t: Seq<MemoryQuant>, i: int)
    requires
        0 <= i <= t.len(),
    ensures
        chunks_of(t.take(i)).len() <= chunks_of(t).len(),
        chunks_of(t.take(i)) == chunks_of(t).take(chunks_of(t.take(i)).len() as int),
    decreases t.len(),
{
    if i == t.len() {
        assert(t.take(i) == t);
        assert(chunks_of(t).take(chunks_of(t).len() as int) == chunks_of(t));
    } else {
        lemma_chunks_of_prefix(t.drop_last(), i);
        assert(t.drop_last().take(i) == t.take(i));
        let shorter = chunks_of(t.drop_last());
        let n = chunks_of(t.take(i)).len() as int;
        assert(chunks_of(t).take(n) =~= shorter.take(n));
    }
}

/// Every assistant reply closes a chunk of its own: the reply at position
/// `i` closes the chunk whose number is the count of replies before `i`. That
/// chunk's conditions are the user and system entries of the run that leads
/// up to `i`, which reaches back to the previous reply and no further. There
/// are as many chunks as replies.
pub proof fn lemma_grouping(t: Seq<MemoryQuant>, i: int)
    requires
        0 <= i < t.len(),
        t[i] is Assistant,
    ensures
        chunks_of(t).len() == replies_before(t, t.len() as int),
        replies_before(t, i) < chunks_of(t).len(),
        MemoryQuant::Assistant(chunks_of(t)[replies_before(t, i) as int].response) == t[i],
        chunks_of(t)[replies_before(t, i) as int].conditions == conditions_between(
            t,
            run_start(t, i),
            i,
        ),
{
    lemma_scan_of_prefix(t, t.len() as int);
    assert(t.take(t.len() as int) == t);
    lemma_scan_of_prefix(t, i);
    lemma_chunks_of_prefix(t, i + 1);
    assert(t.take(i + 1).drop_last() == t.take(i));
    assert(t.take(i + 1).last() == t[i]);
    let k = replies_before(t, i) as int;
    assert(chunks_of(t.take(i + 1))[k] == chunks_of(t)[k]);
}

/// Two different replies close two different chunks, the earlier reply the
/// earlier chunk.
pub proof fn lemma_replies_close_distinct_chunks(t: Seq<MemoryQuant>, i: int, j: int)
    requires
        0 <= i < j <= t.len(),
        t[i] is Assistant,
    ensures
        replies_before(t, i) < replies_before(t, j),
    decreases j,
{
    if j > i + 1 {
        lemma_replies_close_distinct_chunks(t, i, j - 1);
    }
}

/// No chunk holds a long-term memory: the entries that a chunk is laid out
/// as are user, system and assistant entries.
pub proof fn lemma_chunks_hold_no_long_term_memory(c: ChunkView, j: int)
    requires
        0 <= j < chunk_quanta(c).len(),
    ensures
        !(chunk_quanta(c)[j] is LongTermMemory),
{
}

proof fn lemma_scan_past_conditions(t: Seq<MemoryQuant>, conditions: Seq<Condition>)
    ensures
        chunks_of(t + condition_quanta(conditions)) == chunks_of(t),
        pending_conditions(t + condition_quanta(conditions)) == pending_conditions(t)
            + conditions,
        long_term_memories_of(t + condition_quanta(conditions)) == long_term_memories_of(t),
    decreases conditions.len(),
{
    let whole = t + condition_quanta(conditions);
    if conditions.len() == 0 {
        assert(whole == t);
        assert(pending_conditions(t) + conditions == pending_conditions(t));
    } else {
        lemma_scan_past_conditions(t, conditions.drop_last());
        assert(whole.drop_last() == t + condition_quanta(conditions.drop_last()));
        assert(whole.last() == conditions.last().quantum());
        assert(pending_conditions(t) + conditions == (pending_conditions(t)
            + conditions.drop_last()).push(conditions.last()));
    }
}

proof fn lemma_scan_past_chunk(t: Seq<MemoryQuant>, c: ChunkView)
    requires
        pending_conditions(t).len() == 0,
    ensures
        chunks_of(t + chunk_quanta(c)) == chunks_of(t).push(c),
        pending_conditions(t + chunk_quanta(c)).len() == 0,
        long_term_memories_of(t + chunk_quanta(c)) == long_term_memories_of(t),
{
    let whole = t + chunk_quanta(c);
    lemma_scan_past_conditions(t, c.conditions);
    assert(whole.drop_last() == t + condition_quanta(c.conditions));
    assert(whole.last() == MemoryQuant::Assistant(c.response));
    assert(pending_conditions(t) + c.conditions == c.conditions);
}

/// Laying chunks out as a transcript and cutting that transcript again gives
/// the same chunks back. The transcript ends with a reply, or is empty, and
/// holds no long-term memory.
pub proof fn lemma_chunks_of_reassembled(cs: Seq<ChunkView>)
    ensures
        chunks_of(reassembled(cs)) == cs,
        pending_conditions(reassembled(cs)).len() == 0,
        long_term_memories_of(reassembled(cs)).len() == 0,
    decreases cs.len(),
{
    if cs.len() > 0 {
        lemma_chunks_of_reassembled(cs.drop_last());
        lemma_scan_past_chunk(reassembled(cs.drop_last()), cs.last());
        assert(cs.drop_last().push(cs.last()) == cs);
    }
}

/// Compression keeps `floor(count * retention)` chunks, where `count` is the
/// number of chunks of the input: never more than the input has. The
/// compressed transcript is made of exactly the retained chunks and holds no
/// long-term memory.
pub proof fn lemma_retention_bound(t: Seq<MemoryQuant>, retention: Decimal)
    requires
        retention.is_fraction(),
    ensures
        chunks_of(compressed(t, retention)) == retained_chunks(t, retention),
        chunks_of(compressed(t, retention)).len() == portion(
            chunks_of(t).len(),
            retention.micros as int,
        ),
        chunks_of(compressed(t, retention)).len() <= chunks_of(t).len(),
        long_term_memories_of(compressed(t, retention)).len() == 0,
{
    let chunks = chunks_of(t);
    let ranked = sorted_stably(ChunkOrder::IntensityDescending, chunks);
    let keep = portion(chunks.len(), retention.micros as int);
    lemma_portion_bounds(chunks.len(), retention.micros as int);
    lemma_sorted_stably_permutes(ChunkOrder::IntensityDescending, chunks);
    lemma_sorted_stably_permutes(ChunkOrder::TimeAscending, ranked.take(keep));
    lemma_chunks_of_reassembled(retained_chunks(t, retention));
}

/// With a retention of zero nothing is left of the transcript.
pub proof fn lemma_retain_nothing(t: Seq<MemoryQuant>)
    ensures
        compressed(t, Decimal { micros: 0 }) == Seq::<MemoryQuant>::empty(),
{
    let chunks = chunks_of(t);
    lemma_portion_bounds(chunks.len(), 0);
    let ranked = sorted_stably(ChunkOrder::IntensityDescending, chunks);
    assert(ranked.take(0) == Seq::<ChunkView>::empty());
}

/// With a retention of one every chunk of the input is retained, each as
/// often as the input holds it.
pub proof fn lemma_retain_everything(t: Seq<MemoryQuant>)
    ensures
        chunks_of(compressed(t, Decimal { micros: MICROS_PER_UNIT })).to_multiset() == chunks_of(
            t,
        ).to_multiset(),
{
    let one = Decimal { micros: MICROS_PER_UNIT };
    let chunks = chunks_of(t);
    let ranked = sorted_stably(ChunkOrder::IntensityDescending, chunks);
    lemma_portion_bounds(chunks.len(), MICROS_PER_UNIT as int);
    lemma_sorted_stably_permutes(ChunkOrder::IntensityDescending, chunks);
    assert(ranked.take(chunks.len() as int) == ranked);
    lemma_sorted_stably_permutes(ChunkOrder::TimeAscending, ranked);
    lemma_retention_bound(t, one);
}

/// The compressed transcript is chronological: of two of its chunks, the one
/// that stands first has the reply that is not the later one.
pub proof fn lemma_chronological(t: Seq<MemoryQuant>, retention: Decimal, i: int, j: int)
    requires
        retention.is_fraction(),
        0 <= i <= j < chunks_of(compressed(t, retention)).len(),
    ensures
        chunks_of(compressed(t, retention))[i].response.time.not_later_than(
            chunks_of(compressed(t, retention))[j].response.time,
        ),
{
    lemma_retention_bound(t, retention);
    let chunks = chunks_of(t);
    let ranked = sorted_stably(ChunkOrder::IntensityDescending, chunks);
    let kept = ranked.take(portion(chunks.len(), retention.micros as int));
    lemma_sorted_stably_orders(ChunkOrder::TimeAscending, kept);
    let out = sorted_stably(ChunkOrder::TimeAscending, kept);
    if i < j {
        assert(!ChunkOrder::TimeAscending.precedes(out[j], out[i]));
    }
}

/// Of the chunks ranked by intensity, compression retains the front: every
/// retained chunk is at least as intense as every chunk that was dropped.
pub proof fn lemma_retains_the_most_intense(
    t: Seq<MemoryQuant>,
    retention: Decimal,
    kept: int,
    dropped: int,
)
    requires
        retention.is_fraction(),
        0 <= kept < retained_chunks(t, retention).len(),
        retained_chunks(t, retention).len() <= dropped < chunks_of(t).len(),
    ensures
        retained_chunks(t, retention)[kept].response.emotion.level.micros >= sorted_stably(
            ChunkOrder::IntensityDescending,
            chunks_of(t),
        )[dropped].response.emotion.level.micros,
{
    broadcast use vstd::seq_lib::group_to_multiset_ensures;

    let by_intensity = ChunkOrder::IntensityDescending;
    let chunks = chunks_of(t);
    let ranked = sorted_stably(by_intensity, chunks);
    let front = ranked.take(portion(chunks.len(), retention.micros as int));
    let retained = retained_chunks(t, retention);
    lemma_portion_bounds(chunks.len(), retention.micros as int);
    lemma_sorted_stably_permutes(by_intensity, chunks);
    lemma_sorted_stably_orders(by_intensity, chunks);
    lemma_sorted_stably_permutes(ChunkOrder::TimeAscending, front);
    let c = retained[kept];
    assert(retained.contains(c));
    assert(front.to_multiset().count(c) > 0);
    assert(front.contains(c));
    let at = choose|at: int| 0 <= at < front.len() && front[at] == c;
    assert(ranked[at] == c);
    assert(!by_intensity.precedes(ranked[dropped], ranked[at]));
}

proof fn lemma_pending_conditions_come_from(t: Seq<MemoryQuant>, k: int)
    requires
        0 <= k < pending_conditions(t).len(),
    ensures
        t.contains(pending_conditions(t)[k].quantum()),
    decreases t.len(),
{
    let d = t.drop_last();
    if k < pending_conditions(d).len() && !(t.last() is Assistant) {
        lemma_pending_conditions_come_from(d, k);
        let j = choose|j: int| 0 <= j < d.len() && d[j] == pending_conditions(d)[k].quantum();
        assert(t[j] == d[j]);
    } else {
        assert(t[t.len() - 1] == pending_conditions(t)[k].quantum());
    }
}

proof fn lemma_chunk_entries_come_from(t: Seq<MemoryQuant>, k: int, j: int)
    requires
        0 <= k < chunks_of(t).len(),
        0 <= j < chunk_quanta(chunks_of(t)[k]).len(),
    ensures
        t.contains(chunk_quanta(chunks_of(t)[k])[j]),
    decreases t.len(),
{
    let d = t.drop_last();
    let e = chunk_quanta(chunks_of(t)[k])[j];
    if k < chunks_of(d).len() {
        lemma_chunk_entries_come_from(d, k, j);
        let i = choose|i: int| 0 <= i < d.len() && d[i] == e;
        assert(t[i] == d[i]);
    } else if j < pending_conditions(d).len() {
        lemma_pending_conditions_come_from(d, j);
        let i = choose|i: int| 0 <= i < d.len() && d[i] == e;
        assert(t[i] == d[i]);
    } else {
        assert(t[t.len() - 1] == e);
    }
}

proof fn lemma_reassembled_entries_come_from(cs: Seq<ChunkView>, i: int) -> (at: (int, int))
    requires
        0 <= i < reassembled(cs).len(),
    ensures
        0 <= at.0 < cs.len(),
        0 <= at.1 < chunk_quanta(cs[at.0]).len(),
        reassembled(cs)[i] == chunk_quanta(cs[at.0])[at.1],
    decreases cs.len(),
{
    let d = cs.drop_last();
    if i < reassembled(d).len() {
        let at = lemma_reassembled_entries_come_from(d, i);
        assert(d[at.0] == cs[at.0]);
        at
    } else {
        (cs.len() - 1, i - reassembled(d).len())
    }
}

/// Compression invents nothing: every entry of the compressed transcript is
/// an entry of the input, whole and unchanged.
pub proof fn lemma_compression_keeps_entries(t: Seq<MemoryQuant>, retention: Decimal, i: int)
    requires
        retention.is_fraction(),
        0 <= i < compressed(t, retention).len(),
    ensures
        t.contains(compressed(t, retention)[i]),
{
    broadcast use vstd::seq_lib::group_to_multiset_ensures;

    let by_intensity = ChunkOrder::IntensityDescending;
    let chunks = chunks_of(t);
    let ranked = sorted_stably(by_intensity, chunks);
    let front = ranked.take(portion(chunks.len(), retention.micros as int));
    let retained = retained_chunks(t, retention);
    lemma_portion_bounds(chunks.len(), retention.micros as int);
    lemma_sorted_stably_permutes(by_intensity, chunks);
    lemma_sorted_stably_permutes(ChunkOrder::TimeAscending, front);
    let at = lemma_reassembled_entries_come_from(retained, i);
    let c = retained[at.0];
    assert(retained.contains(c));
    assert(front.to_multiset().count(c) > 0);
    assert(front.contains(c));
    let f = choose|f: int| 0 <= f < front.len() && front[f] == c;
    assert(ranked[f] == c);
    assert(ranked.contains(c));
    assert(chunks.to_multiset().count(c) > 0);
    assert(chunks.contains(c));
    let k = choose|k: int| 0 <= k < chunks.len() && chunks[k] == c;
    lemma_chunk_entries_come_from(t, k, at.1);
}

/// Ranking chunks by intensity and putting them back in order of time is
/// something that, done twice, gives what doing it once gives.
proof fn lemma_rank_and_order_twice(chunks: Seq<ChunkView>)
    ensures
        sorted_stably(
            ChunkOrder::TimeAscending,
            sorted_stably(
                ChunkOrder::IntensityDescending,
                sorted_stably(
                    ChunkOrder::TimeAscending,
                    sorted_stably(ChunkOrder::IntensityDescending, chunks),
                ),
            ),
        ) == sorted_stably(
            ChunkOrder::TimeAscending,
            sorted_stably(ChunkOrder::IntensityDescending, chunks),
        ),
{
    let by_intensity = ChunkOrder::IntensityDescending;
    let by_time = ChunkOrder::TimeAscending;
    let ranked = sorted_stably(by_intensity, chunks);
    let once = sorted_stably(by_time, ranked);
    let ranked_again = sorted_stably(by_intensity, once);
    let twice = sorted_stably(by_time, ranked_again);
    lemma_sorted_stably_orders(by_time, ranked);
    lemma_sorted_stably_orders(by_time, ranked_again);
    lemma_sorted_stably_permutes(by_time, ranked);
    lemma_sorted_stably_permutes(by_intensity, once);
    lemma_sorted_stably_permutes(by_time, ranked_again);
    assert forall|c: ChunkView|
        twice.filter(#[trigger] tied_with(by_time, c)) == once.filter(tied_with(by_time, c)) by {
        let same_time = tied_with(by_time, c);
        lemma_sorted_stably_is_stable(by_time, ranked_again, c);
        lemma_sorted_stably_commutes_with_filter(by_intensity, once, same_time);
        lemma_sorted_stably_is_stable(by_time, ranked, c);
        lemma_sorted_stably_commutes_with_filter(by_intensity, chunks, same_time);
        lemma_sorted_stably_is_idempotent(by_intensity, chunks.filter(same_time));
    }
    lemma_stable_sort_is_unique(by_time, twice, once);
}

/// Compressing with a retention of one is idempotent: a second compression
/// gives the transcript that the first one gave, and so keeps the chunks of
/// the first result, each as often as the first result holds it.
pub proof fn lemma_full_retention_is_idempotent(t: Seq<MemoryQuant>)
    ensures
        compressed(
            compressed(t, Decimal { micros: MICROS_PER_UNIT }),
            Decimal { micros: MICROS_PER_UNIT },
        ) == compressed(t, Decimal { micros: MICROS_PER_UNIT }),
        chunks_of(
            compressed(
                compressed(t, Decimal { micros: MICROS_PER_UNIT }),
                Decimal { micros: MICROS_PER_UNIT },
            ),
        ).to_multiset() == chunks_of(
            compressed(t, Decimal { micros: MICROS_PER_UNIT }),
        ).to_multiset(),
{
    let one = Decimal { micros: MICROS_PER_UNIT };
    let by_intensity = ChunkOrder::IntensityDescending;
    let chunks = chunks_of(t);
    let ranked = sorted_stably(by_intensity, chunks);
    let once = retained_chunks(t, one);
    lemma_portion_bounds(chunks.len(), MICROS_PER_UNIT as int);
    lemma_sorted_stably_permutes(by_intensity, chunks);
    assert(ranked.take(chunks.len() as int) == ranked);
    lemma_retention_bound(t, one);
    let ranked_again = sorted_stably(by_intensity, once);
    lemma_portion_bounds(once.len(), MICROS_PER_UNIT as int);
    lemma_sorted_stably_permutes(by_intensity, once);
    assert(ranked_again.take(once.len() as int) == ranked_again);
    lemma_rank_and_order_twice(chunks);
}

} // verus!
