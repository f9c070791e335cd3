//! Retention-based compression of a transcript.
//!
//! A transcript is cut into chunks, each an assistant reply together with the
//! user and system entries that led to it. The chunks with the most intense
//! replies are kept, put back into chronological order and laid out again as
//! a transcript.

use crate::decimal::{portion, Decimal};
use crate::types::{AssistantMessage, LongTermMemory, MemoryQuant, SystemMessage, UserMessage};
use vstd::prelude::*;

verus! {

/// An entry that leads up to an assistant reply.
#[derive(Debug)]
pub enum Condition {
    User(UserMessage),
    System(SystemMessage),
}

/// An assistant reply and the conditions that it answers.
#[derive(Debug)]
pub struct Chunk {
    pub conditions: Vec<Condition>,
    pub response: AssistantMessage,
}

/// What a chunk holds, as a mathematical value.
pub struct ChunkView {
    pub conditions: Seq<Condition>,
    pub response: AssistantMessage,
}

impl View for Chunk {
    type V = ChunkView;

    open spec fn view(&self) -> ChunkView {
        ChunkView { conditions: self.conditions@, response: self.response }
    }
}

impl Condition {
    /// The transcript entry that the condition was taken from.
    pub open spec fn quantum(self) -> MemoryQuant {
        match self {
            Condition::User(m) => MemoryQuant::User(m),
            Condition::System(m) => MemoryQuant::System(m),
        }
    }

    pub fn into_quantum(self) -> (q: MemoryQuant)
        ensures
            q == self.quantum(),
    {
        match self {
            Condition::User(m) => MemoryQuant::User(m),
            Condition::System(m) => MemoryQuant::System(m),
        }
    }
}

/// The views of a run of chunks.
pub open spec fn chunk_views(chunks: Seq<Chunk>) -> Seq<ChunkView> {
    chunks.map_values(|c: Chunk| c@)
}

/// The conditions that have piled up at the end of `t` without an assistant
/// reply to close them.
pub open spec fn pending_conditions(t: Seq<MemoryQuant>) -> Seq<Condition>
    decreases t.len(),
{
    if t.len() == 0 {
        Seq::empty()
    } else {
        match t.last() {
            MemoryQuant::User(m) => pending_conditions(t.drop_last()).push(Condition::User(m)),
            MemoryQuant::System(m) => pending_conditions(t.drop_last()).push(Condition::System(m)),
            MemoryQuant::Assistant(_) => Seq::empty(),
            MemoryQuant::LongTermMemory(_) => pending_conditions(t.drop_last()),
        }
    }
}

/// The chunks of `t`, in the order in which their replies occur. Conditions
/// that no reply closes belong to no chunk.
pub open spec fn chunks_of(t: Seq<MemoryQuant>) -> Seq<ChunkView>
    decreases t.len(),
{
    if t.len() == 0 {
        Seq::empty()
    } else {
        match t.last() {
            MemoryQuant::Assistant(m) => chunks_of(t.drop_last()).push(
                ChunkView { conditions: pending_conditions(t.drop_last()), response: m },
            ),
            _ => chunks_of(t.drop_last()),
        }
    }
}

/// The long-term memories of `t`, in order.
pub open spec fn long_term_memories_of(t: Seq<MemoryQuant>) -> Seq<LongTermMemory>
    decreases t.len(),
{
    if t.len() == 0 {
        Seq::empty()
    } else {
        match t.last() {
            MemoryQuant::LongTermMemory(m) => long_term_memories_of(t.drop_last()).push(m),
            _ => long_term_memories_of(t.drop_last()),
        }
    }
}

/// Cuts a transcript into its chunks and its long-term memories in one pass
/// from the first entry to the last.
pub fn split_into_chunks(messages: Vec<MemoryQuant>) -> (parts: (Vec<Chunk>, Vec<LongTermMemory>))
    ensures
        chunk_views(parts.0@) == chunks_of(messages@),
        parts.1@ == long_term_memories_of(messages@),
{
    let ghost t = messages@;
    let mut chunks: Vec<Chunk> = Vec::new();
    let mut long_term_memory: Vec<LongTermMemory> = Vec::new();
    let mut current_conditions: Vec<Condition> = Vec::new();
    for message in it: messages
        invariant
            it.seq() == t,
            chunk_views(chunks@) == chunks_of(t.take(it.index() as int)),
            long_term_memory@ == long_term_memories_of(t.take(it.index() as int)),
            current_conditions@ == pending_conditions(t.take(it.index() as int)),
    {
        proof {
            let n = it.index() as int;
            assert(t.take(n + 1).drop_last() == t.take(n));
        }
        match message {
            MemoryQuant::User(m) => current_conditions.push(Condition::User(m)),
            MemoryQuant::Assistant(m) => {
                let chunk = Chunk { conditions: current_conditions, response: m };
                current_conditions = Vec::new();
                chunks.push(chunk);
            },
            MemoryQuant::System(m) => current_conditions.push(Condition::System(m)),
            MemoryQuant::LongTermMemory(m) => long_term_memory.push(m),
        }
    }
    proof {
        assert(t.take(t.len() as int) == t);
    }
    (chunks, long_term_memory)
}

/// The order in which chunks are ranked.
#[derive(Clone, Copy, Debug, PartialEq, Eq, Structural)]
pub enum ChunkOrder {
    /// The more intense reply first.
    IntensityDescending,
    /// The earlier reply first.
    TimeAscending,
}

impl ChunkOrder {
    /// `a` must stand before `b` in this order. Chunks that neither precede
    /// the other are tied.
    pub open spec fn precedes(self, a: ChunkView, b: ChunkView) -> bool {
        match self {
            ChunkOrder::IntensityDescending => a.response.emotion.level.micros
                > b.response.emotion.level.micros,
            ChunkOrder::TimeAscending => a.response.time.earlier_than(b.response.time),
        }
    }

    pub fn comes_before(&self, a: &Chunk, b: &Chunk) -> (r: bool)
        ensures
            r == self.precedes(a@, b@),
    {
        match self {
            ChunkOrder::IntensityDescending => a.response.emotion.level.exceeds(
                &b.response.emotion.level,
            ),
            ChunkOrder::TimeAscending => a.response.time.is_earlier_than(&b.response.time),
        }
    }
}

/// `s` with `x` added behind every chunk that `x` does not precede: where
/// `s` is in order, `x` lands behind the chunks it is tied with.
pub open spec fn insert_sorted(order: ChunkOrder, s: Seq<ChunkView>, x: ChunkView) -> Seq<
    ChunkView,
>
    decreases s.len(),
{
    if s.len() > 0 && order.precedes(x, s.last()) {
        insert_sorted(order, s.drop_last(), x).push(s.last())
    } else {
        s.push(x)
    }
}

/// The chunks of `s` in the given order, tied chunks in the order in which
/// they stand in `s`.
pub open spec fn sorted_stably(order: ChunkOrder, s: Seq<ChunkView>) -> Seq<ChunkView>
    decreases s.len(),
{
    if s.len() == 0 {
        s
    } else {
        insert_sorted(order, sorted_stably(order, s.drop_last()), s.last())
    }
}

/// Where the chunks from `at` on are exactly those that `x` precedes,
/// `insert_sorted` puts `x` at `at`.
proof fn lemma_insert_position(order: ChunkOrder, s: Seq<ChunkView>, x: ChunkView, at: int)
    requires
        0 <= at <= s.len(),
        forall|j: int| at <= j < s.len() ==> order.precedes(x, #[trigger] s[j]),
        at > 0 ==> !order.precedes(x, s[at - 1]),
    ensures
        insert_sorted(order, s, x) == s.insert(at, x),
    decreases s.len(),
{
    if at < s.len() {
        lemma_insert_position(order, s.drop_last(), x, at);
    }
}

/// Sorts chunks by insertion, so that tied chunks keep their order.
pub fn sort_chunks(chunks: Vec<Chunk>, order: ChunkOrder) -> (sorted: Vec<Chunk>)
    ensures
        chunk_views(sorted@) == sorted_stably(order, chunk_views(chunks@)),
{
    let ghost input = chunk_views(chunks@);
    let ghost taken = chunks@;
    let mut sorted: Vec<Chunk> = Vec::new();
    for chunk in it: chunks
        invariant
            it.seq() == taken,
            input == chunk_views(taken),
            chunk_views(sorted@) == sorted_stably(order, input.take(it.index() as int)),
    {
        let mut at: usize = sorted.len();
        while at > 0 && order.comes_before(&chunk, &sorted[at - 1])
            invariant
                at <= sorted.len(),
                forall|j: int|
                    at <= j < sorted.len() ==> order.precedes(
                        chunk@,
                        #[trigger] chunk_views(sorted@)[j],
                    ),
            decreases at,
        {
            at -= 1;
        }
        proof {
            let n = it.index() as int;
            assert(input.take(n + 1).drop_last() == input.take(n));
            lemma_insert_position(order, chunk_views(sorted@), chunk@, at as int);
            assert(chunk_views(sorted@.insert(at as int, chunk)) =~= chunk_views(sorted@).insert(
                at as int,
                chunk@,
            ));
        }
        sorted.insert(at, chunk);
    }
    proof {
        assert(input.take(input.len() as int) == input);
    }
    sorted
}

/// The transcript entries that conditions were taken from.
pub open spec fn condition_quanta(conditions: Seq<Condition>) -> Seq<MemoryQuant> {
    conditions.map_values(|x: Condition| x.quantum())
}

/// The entries that a chunk was cut from: its conditions, then its reply.
pub open spec fn chunk_quanta(c: ChunkView) -> Seq<MemoryQuant> {
    condition_quanta(c.conditions).push(MemoryQuant::Assistant(c.response))
}

/// The transcript that lists the entries of each chunk in turn.
pub open spec fn reassembled(cs: Seq<ChunkView>) -> Seq<MemoryQuant>
    decreases cs.len(),
{
    if cs.len() == 0 {
        Seq::empty()
    } else {
        reassembled(cs.drop_last()) + chunk_quanta(cs.last())
    }
}

/// The chunks of `t` that survive compression, in the order in which the
/// compressed transcript holds them: of the chunks ranked by intensity, the
/// first `floor(count * retention)`, put back in order of time.
pub open spec fn retained_chunks(t: Seq<MemoryQuant>, retention: Decimal) -> Seq<ChunkView> {
    let chunks = chunks_of(t);
    let ranked = sorted_stably(ChunkOrder::IntensityDescending, chunks);
    let kept = ranked.take(portion(chunks.len(), retention.micros as int));
    sorted_stably(ChunkOrder::TimeAscending, kept)
}

/// The transcript that compression turns `t` into.
pub open spec fn compressed(t: Seq<MemoryQuant>, retention: Decimal) -> Seq<MemoryQuant> {
    reassembled(retained_chunks(t, retention))
}

/// Lays chunks out as a transcript again.
pub fn reassemble(chunks: Vec<Chunk>) -> (transcript: Vec<MemoryQuant>)
    ensures
        transcript@ == reassembled(chunk_views(chunks@)),
{
    let ghost input = chunk_views(chunks@);
    let ghost taken = chunks@;
    let mut transcript: Vec<MemoryQuant> = Vec::new();
    for chunk in it: chunks
        invariant
            it.seq() == taken,
            input == chunk_views(taken),
            transcript@ == reassembled(input.take(it.index() as int)),
    {
        let ghost before = transcript@;
        let Chunk { conditions, response } = chunk;
        let ghost conds = conditions@;
        for condition in ic: conditions
            invariant
                ic.seq() == conds,
                transcript@ == before + condition_quanta(conds.take(ic.index() as int)),
        {
            proof {
                let k = ic.index() as int;
                assert(condition_quanta(conds.take(k + 1)) =~= condition_quanta(
                    conds.take(k),
                ).push(condition.quantum()));
            }
            transcript.push(condition.into_quantum());
        }
        transcript.push(MemoryQuant::Assistant(response));
        proof {
            let n = it.index() as int;
            assert(input.take(n + 1).drop_last() == input.take(n));
        }
    }
    proof {
        assert(input.take(input.len() as int) == input);
    }
    transcript
}

/// Why a transcript was not compressed.
#[derive(Clone, Copy, Debug, PartialEq, Eq, Structural)]
pub enum CompressError {
    /// The retention amount lies outside the interval from zero to one.
    RetentionOutOfRange,
}

/// What compression yields: the trimmed transcript, and the long-term
/// memories of the input, which the trimmed transcript leaves out.
#[derive(Debug)]
pub struct Compression {
    pub transcript: Vec<MemoryQuant>,
    pub long_term_memories: Vec<LongTermMemory>,
}

/// Compresses a transcript. `retention_amount` is the fraction of chunks to
/// keep: with zero none survives, with one all do. An amount outside
/// `[0, 1]` is refused, never clamped.
pub fn compress_memory(messages: Vec<MemoryQuant>, retention_amount: Decimal) -> (r: Result<
    Compression,
    CompressError,
>)
    ensures
        match r {
            Ok(c) => {
                &&& retention_amount.is_fraction()
                &&& c.transcript@ == compressed(messages@, retention_amount)
                &&& c.long_term_memories@ == long_term_memories_of(messages@)
            },
            Err(e) => !retention_amount.is_fraction() && e == CompressError::RetentionOutOfRange,
        },
{
    if !retention_amount.in_unit_interval() {
        return Err(CompressError::RetentionOutOfRange);
    }
    let (chunks, long_term_memories) = split_into_chunks(messages);
    let mut ranked = sort_chunks(chunks, ChunkOrder::IntensityDescending);
    proof {
        lemma_sorted_stably_permutes(ChunkOrder::IntensityDescending, chunks_of(messages@));
    }
    let keep = retention_amount.portion_of(ranked.len());
    let ghost all = chunk_views(ranked@);
    ranked.truncate(keep);
    assert(chunk_views(ranked@) =~= all.take(keep as int));
    let ordered = sort_chunks(ranked, ChunkOrder::TimeAscending);
    let transcript = reassemble(ordered);
    Ok(Compression { transcript, long_term_memories })
}

/// Where `insert_sorted` puts a new chunk: in front of the trailing chunks
/// that it precedes.
pub open spec fn insert_point(order: ChunkOrder, s: Seq<ChunkView>, x: ChunkView) -> int
    decreases s.len(),
{
    if s.len() > 0 && order.precedes(x, s.last()) {
        insert_point(order, s.drop_last(), x)
    } else {
        s.len() as int
    }
}

/// No chunk of `s` stands behind one that it must precede.
pub open spec fn in_order(order: ChunkOrder, s: Seq<ChunkView>) -> bool {
    forall|i: int, j: int| 0 <= i < j < s.len() ==> !order.precedes(#[trigger] s[j], #[trigger] s[i])
}

/// `insert_sorted` adds the chunk at its insert point and moves nothing else.
pub proof fn lemma_insert_sorted_is_insert(order: ChunkOrder, s: Seq<ChunkView>, x: ChunkView)
    ensures
        0 <= insert_point(order, s, x) <= s.len(),
        insert_sorted(order, s, x) == s.insert(insert_point(order, s, x), x),
        forall|j: int|
            insert_point(order, s, x) <= j < s.len() ==> order.precedes(x, #[trigger] s[j]),
        insert_point(order, s, x) > 0 ==> !order.precedes(x, s[insert_point(order, s, x) - 1]),
    decreases s.len(),
{
    let at = insert_point(order, s, x);
    if s.len() > 0 && order.precedes(x, s.last()) {
        lemma_insert_sorted_is_insert(order, s.drop_last(), x);
        assert forall|j: int| at <= j < s.len() implies order.precedes(x, #[trigger] s[j]) by {
            if j < s.len() - 1 {
                assert(s[j] == s.drop_last()[j]);
            }
        }
        if at > 0 {
            assert(s[at - 1] == s.drop_last()[at - 1]);
        }
    }
    lemma_insert_position(order, s, x, at);
}

/// Sorting neither drops nor invents a chunk: the result holds each chunk as
/// often as the input does.
pub proof fn lemma_sorted_stably_permutes(order: ChunkOrder, s: Seq<ChunkView>)
    ensures
        sorted_stably(order, s).len() == s.len(),
        sorted_stably(order, s).to_multiset() == s.to_multiset(),
    decreases s.len(),
{
    broadcast use vstd::seq_lib::group_to_multiset_ensures;

    if s.len() > 0 {
        let rest = sorted_stably(order, s.drop_last());
        lemma_sorted_stably_permutes(order, s.drop_last());
        lemma_insert_sorted_is_insert(order, rest, s.last());
        let at = insert_point(order, rest, s.last());
        assert(rest.insert(at, s.last()).remove(at) =~= rest);
        assert(rest.insert(at, s.last()).to_multiset().remove(s.last()) == rest.to_multiset());
        assert(s.drop_last().push(s.last()) =~= s);
        assert(rest.insert(at, s.last()).to_multiset() =~= s.to_multiset());
    }
}

/// Sorting puts the chunks in order.
pub proof fn lemma_sorted_stably_orders(order: ChunkOrder, s: Seq<ChunkView>)
    ensures
        in_order(order, sorted_stably(order, s)),
    decreases s.len(),
{
    if s.len() > 0 {
        let rest = sorted_stably(order, s.drop_last());
        let x = s.last();
        lemma_sorted_stably_orders(order, s.drop_last());
        lemma_insert_sorted_is_insert(order, rest, x);
        let at = insert_point(order, rest, x);
        let r = rest.insert(at, x);
        assert forall|i: int, j: int| 0 <= i < j < r.len() implies !order.precedes(
            #[trigger] r[j],
            #[trigger] r[i],
        ) by {
            if j == at {
                assert(r[i] == rest[i]);
                if at > 0 && i < at - 1 {
                    assert(!order.precedes(rest[at - 1], rest[i]));
                }
            } else if i == at {
                assert(r[j] == rest[j - 1]);
                assert(order.precedes(x, rest[j - 1]));
            } else {
                let ri = if i < at { i } else { i - 1 };
                let rj = if j < at { j } else { j - 1 };
                assert(r[i] == rest[ri]);
                assert(r[j] == rest[rj]);
            }
        }
    }
}

/// Neither of `a` and `b` must stand before the other.
pub open spec fn tied(order: ChunkOrder, a: ChunkView, b: ChunkView) -> bool {
    !order.precedes(a, b) && !order.precedes(b, a)
}

/// The test that a chunk is tied with `c`.
pub open spec fn tied_with(order: ChunkOrder, c: ChunkView) -> spec_fn(ChunkView) -> bool {
    |x: ChunkView| tied(order, x, c)
}

/// Sorting is stable: the chunks that are tied with one another stand in the
/// result in the order in which they stand in the input.
pub proof fn lemma_sorted_stably_is_stable(order: ChunkOrder, s: Seq<ChunkView>, c: ChunkView)
    ensures
        sorted_stably(order, s).filter(tied_with(order, c)) == s.filter(tied_with(order, c)),
    decreases s.len(),
{
    let p = tied_with(order, c);
    if s.len() > 0 {
        let rest = sorted_stably(order, s.drop_last());
        let x = s.last();
        lemma_sorted_stably_is_stable(order, s.drop_last(), c);
        lemma_insert_sorted_is_insert(order, rest, x);
        let at = insert_point(order, rest, x);
        let front = rest.take(at);
        let back = rest.skip(at);
        assert(rest == front + back);
        assert(rest.insert(at, x) == front.push(x) + back);
        Seq::filter_distributes_over_add(front, back, p);
        Seq::filter_distributes_over_add(front.push(x), back, p);
        front.lemma_filter_push(x, p);
        s.drop_last().lemma_filter_push(x, p);
        assert(s.drop_last().push(x) == s);
        if p(x) {
            assert forall|i: int| 0 <= i < back.len() implies !p(#[trigger] back[i]) by {
                assert(back[i] == rest[at + i]);
                assert(order.precedes(x, rest[at + i]));
            }
            assert(back.all(|e: ChunkView| !p(e)));
            back.lemma_all_neg_filter_empty(p);
            assert(back.filter(p) == Seq::<ChunkView>::empty());
            assert(front.filter(p) + back.filter(p) == front.filter(p));
            assert(front.filter(p).push(x) + back.filter(p) == front.filter(p).push(x));
        }
    } else {
        assert(sorted_stably(order, s) == s);
    }
}

/// A prefix of chunks in order is in order.
proof fn lemma_in_order_prefix(order: ChunkOrder, s: Seq<ChunkView>)
    requires
        in_order(order, s),
        s.len() > 0,
    ensures
        in_order(order, s.drop_last()),
{
    let d = s.drop_last();
    assert forall|i: int, j: int| 0 <= i < j < d.len() implies !order.precedes(
        #[trigger] d[j],
        #[trigger] d[i],
    ) by {
        assert(d[i] == s[i] && d[j] == s[j]);
    }
}

/// There is one stable sort: two arrangements that are both in order and
/// both hold the chunks of each tie in the same order are the same.
pub proof fn lemma_stable_sort_is_unique(order: ChunkOrder, a: Seq<ChunkView>, b: Seq<ChunkView>)
    requires
        in_order(order, a),
        in_order(order, b),
        a.len() == b.len(),
        forall|c: ChunkView|
            a.filter(#[trigger] tied_with(order, c)) == b.filter(tied_with(order, c)),
    ensures
        a == b,
    decreases a.len(),
{
    if a.len() == 0 {
        assert(a =~= b);
    } else {
        let x = a.last();
        let y = b.last();
        let ad = a.drop_last();
        let bd = b.drop_last();
        let p = tied_with(order, x);
        assert(ad.push(x) == a);
        assert(bd.push(y) == b);
        ad.lemma_filter_push(x, p);
        bd.lemma_filter_push(y, p);
        assert(p(x));
        assert(a.filter(p) == b.filter(p));
        if !p(y) {
            let f = bd.filter(p);
            let e = f[0];
            bd.lemma_filter_pred(p, 0);
            assert(f.contains(e));
            bd.lemma_filter_contains_rev(p, e);
            let i = choose|i: int| 0 <= i < bd.len() && bd[i] == e;
            assert(b[i] == e);
            assert(!order.precedes(b[b.len() - 1], b[i]));
            let q = tied_with(order, y);
            ad.lemma_filter_push(x, q);
            bd.lemma_filter_push(y, q);
            assert(q(y));
            assert(a.filter(q) == b.filter(q));
            let g = ad.filter(q);
            let e2 = g[0];
            ad.lemma_filter_pred(q, 0);
            assert(g.contains(e2));
            ad.lemma_filter_contains_rev(q, e2);
            let j = choose|j: int| 0 <= j < ad.len() && ad[j] == e2;
            assert(a[j] == e2);
            assert(!order.precedes(a[a.len() - 1], a[j]));
            assert(false);
        }
        assert(a.filter(p).last() == x);
        assert(b.filter(p).last() == y);
        assert forall|c: ChunkView|
            ad.filter(#[trigger] tied_with(order, c)) == bd.filter(tied_with(order, c)) by {
            let pc = tied_with(order, c);
            ad.lemma_filter_push(x, pc);
            bd.lemma_filter_push(y, pc);
            assert(a.filter(pc) == b.filter(pc));
            if pc(x) {
                assert(ad.filter(pc) == ad.filter(pc).push(x).drop_last());
                assert(bd.filter(pc) == bd.filter(pc).push(y).drop_last());
            }
        }
        lemma_in_order_prefix(order, a);
        lemma_in_order_prefix(order, b);
        lemma_stable_sort_is_unique(order, ad, bd);
    }
}

/// Sorting what is sorted changes nothing.
pub proof fn lemma_sorted_stably_is_idempotent(order: ChunkOrder, s: Seq<ChunkView>)
    ensures
        sorted_stably(order, sorted_stably(order, s)) == sorted_stably(order, s),
{
    let once = sorted_stably(order, s);
    let twice = sorted_stably(order, once);
    lemma_sorted_stably_orders(order, s);
    lemma_sorted_stably_orders(order, once);
    lemma_sorted_stably_permutes(order, once);
    assert forall|c: ChunkView|
        twice.filter(#[trigger] tied_with(order, c)) == once.filter(tied_with(order, c)) by {
        lemma_sorted_stably_is_stable(order, once, c);
    }
    lemma_stable_sort_is_unique(order, twice, once);
}

/// The chunks of a sorted run that pass a test are the sorted run of the
/// chunks that pass it: sorting treats each chunk by its place among the
/// others, whichever others there are.
pub proof fn lemma_sorted_stably_commutes_with_filter(
    order: ChunkOrder,
    s: Seq<ChunkView>,
    q: spec_fn(ChunkView) -> bool,
)
    ensures
        sorted_stably(order, s).filter(q) == sorted_stably(order, s.filter(q)),
    decreases s.len(),
{
    if s.len() == 0 {
        reveal(Seq::filter);
        assert(s.filter(q) == s);
    } else {
        let d = s.drop_last();
        let x = s.last();
        let rest = sorted_stably(order, d);
        lemma_sorted_stably_commutes_with_filter(order, d, q);
        lemma_sorted_stably_orders(order, d);
        lemma_insert_sorted_is_insert(order, rest, x);
        let at = insert_point(order, rest, x);
        let front = rest.take(at);
        let back = rest.skip(at);
        assert(rest == front + back);
        assert(rest.insert(at, x) == front.push(x) + back);
        Seq::filter_distributes_over_add(front, back, q);
        Seq::filter_distributes_over_add(front.push(x), back, q);
        front.lemma_filter_push(x, q);
        d.lemma_filter_push(x, q);
        assert(d.push(x) == s);
        assert(sorted_stably(order, s) == front.push(x) + back);
        if q(x) {
            let kept = rest.filter(q);
            let ff = front.filter(q);
            let bf = back.filter(q);
            let fewer = d.filter(q);
            assert(s.filter(q) == fewer.push(x));
            assert(fewer.push(x).drop_last() == fewer);
            assert(fewer.push(x).last() == x);
            assert(sorted_stably(order, s.filter(q)) == insert_sorted(order, kept, x));
            assert(sorted_stably(order, s).filter(q) == ff.push(x) + bf);
            assert forall|j: int| ff.len() <= j < kept.len() implies order.precedes(
                x,
                #[trigger] kept[j],
            ) by {
                let e = bf[j - ff.len()];
                assert(kept[j] == e);
                assert(bf.contains(e));
                back.lemma_filter_contains_rev(q, e);
                let k = choose|k: int| 0 <= k < back.len() && back[k] == e;
                assert(back[k] == rest[at + k]);
            }
            if ff.len() > 0 {
                let e = ff[ff.len() - 1];
                assert(kept[ff.len() - 1] == e);
                assert(ff.contains(e));
                front.lemma_filter_contains_rev(q, e);
                let k = choose|k: int| 0 <= k < front.len() && front[k] == e;
                assert(front[k] == rest[k]);
                assert(!order.precedes(x, rest[at - 1]));
                if k < at - 1 {
                    assert(!order.precedes(rest[at - 1], rest[k]));
                }
            }
            lemma_insert_position(order, kept, x, ff.len() as int);
            assert(kept.insert(ff.len() as int, x) =~= ff.push(x) + bf);
        } else {
            assert(s.filter(q) == d.filter(q));
            assert(sorted_stably(order, s).filter(q) == front.filter(q) + back.filter(q));
        }
    }
}

} // verus!
