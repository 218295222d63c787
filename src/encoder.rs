use crate::config::{bpm_to_us_per_quarter, us_per_quarter, Config};
use crate::generator::{seeded_step_draws, sequence_of, NoteEvent, Sequence};
use vstd::prelude::*;

verus! {

/// One event of the single track.
#[derive(Clone, Copy, Debug, PartialEq, Eq, Structural)]
pub enum TrackEvent {
    /// Set Tempo meta event, in microseconds per quarter note.
    Tempo(u32),
    ProgramChange { channel: u8, program: u8 },
    NoteOn { channel: u8, key: u8, velocity: u8 },
    /// Note Off, sent with velocity zero.
    NoteOff { channel: u8, key: u8 },
    /// End of Track meta event.
    EndOfTrack,
}

/// An event at a tick: absolute before delta encoding, relative to the
/// previous event after it.
#[derive(Clone, Copy, Debug, PartialEq, Eq, Structural)]
pub struct TimedEvent {
    pub tick: u32,
    pub event: TrackEvent,
}

/// Tie-break rank of events that share a tick: note-offs first, then
/// note-ons, then other channel messages, then meta events.
pub open spec fn rank(e: TrackEvent) -> u8 {
    match e {
        TrackEvent::NoteOff { .. } => 0,
        TrackEvent::NoteOn { .. } => 1,
        TrackEvent::ProgramChange { .. } => 2,
        TrackEvent::Tempo(_) => 3,
        TrackEvent::EndOfTrack => 3,
    }
}

/// The tie-break rank of an event.
pub fn event_order_key(e: &TrackEvent) -> (r: u8)
    ensures
        r == rank(*e),
{
    match e {
        TrackEvent::NoteOff { .. } => 0,
        TrackEvent::NoteOn { .. } => 1,
        TrackEvent::ProgramChange { .. } => 2,
        TrackEvent::Tempo(_) => 3,
        TrackEvent::EndOfTrack => 3,
    }
}

/// `a` may stand before `b`: an earlier tick, or the same tick and a rank no higher.
pub open spec fn precedes(a: TimedEvent, b: TimedEvent) -> bool {
    a.tick < b.tick || (a.tick == b.tick && rank(a.event) <= rank(b.event))
}

/// The note-on and note-off of each note, in the order of the notes.
pub open spec fn note_events(notes: Seq<NoteEvent>, channel: u8) -> Seq<TimedEvent>
    decreases notes.len(),
{
    if notes.len() == 0 {
        Seq::empty()
    } else {
        let n = notes.last();
        note_events(notes.drop_last(), channel).push(
            TimedEvent {
                tick: n.start_tick,
                event: TrackEvent::NoteOn { channel, key: n.pitch, velocity: n.velocity },
            },
        ).push(TimedEvent { tick: n.end_tick, event: TrackEvent::NoteOff { channel, key: n.pitch } })
    }
}

/// The events at absolute ticks: tempo and program change at tick zero,
/// then two events per note.
pub open spec fn absolute_events(notes: Seq<NoteEvent>, bpm: u32, channel: u8, program: u8) -> Seq<
    TimedEvent,
> {
    seq![
        TimedEvent { tick: 0, event: TrackEvent::Tempo(us_per_quarter(bpm) as u32) },
        TimedEvent { tick: 0, event: TrackEvent::ProgramChange { channel, program } },
    ] + note_events(notes, channel)
}

/// Inserts `e` into `s` after every element that may precede it.
pub open spec fn insert_sorted(s: Seq<TimedEvent>, e: TimedEvent) -> Seq<TimedEvent>
    decreases s.len(),
{
    if s.len() == 0 || precedes(s.last(), e) {
        s.push(e)
    } else {
        insert_sorted(s.drop_last(), e).push(s.last())
    }
}

/// The stable sort of `s` by tick, then by rank.
pub open spec fn sorted_events(s: Seq<TimedEvent>) -> Seq<TimedEvent>
    decreases s.len(),
{
    if s.len() == 0 {
        s
    } else {
        insert_sorted(sorted_events(s.drop_last()), s.last())
    }
}

/// Each tick replaced by its distance from the previous event's tick
/// (from zero for the first event), never below zero.
pub open spec fn to_deltas(s: Seq<TimedEvent>) -> Seq<TimedEvent> {
    Seq::new(
        s.len(),
        |i: int|
            TimedEvent {
                tick: if i == 0 {
                    s[0].tick
                } else if s[i].tick >= s[i - 1].tick {
                    (s[i].tick - s[i - 1].tick) as u32
                } else {
                    0
                },
                event: s[i].event,
            },
    )
}

/// The terminal event.
pub open spec fn end_of_track() -> TimedEvent {
    TimedEvent { tick: 0, event: TrackEvent::EndOfTrack }
}

/// The whole encoded track.
pub open spec fn encoded_stream(notes: Seq<NoteEvent>, bpm: u32, channel: u8, program: u8) -> Seq<
    TimedEvent,
> {
    to_deltas(sorted_events(absolute_events(notes, bpm, channel, program))).push(end_of_track())
}

/// Lists the events of `seq` at their absolute ticks, unsorted.
pub fn collect_events(seq: &Sequence, channel: u8, program: u8) -> (r: Vec<TimedEvent>)
    ensures
        r@ == absolute_events(seq.notes@, seq.bpm, channel, program),
{
    let mut r: Vec<TimedEvent> = Vec::new();
    r.push(TimedEvent { tick: 0, event: TrackEvent::Tempo(bpm_to_us_per_quarter(seq.bpm)) });
    r.push(TimedEvent { tick: 0, event: TrackEvent::ProgramChange { channel, program } });
    let head: Ghost<Seq<TimedEvent>> = Ghost(r@);
    assert(head@ =~= seq![
        TimedEvent { tick: 0, event: TrackEvent::Tempo(us_per_quarter(seq.bpm) as u32) },
        TimedEvent { tick: 0, event: TrackEvent::ProgramChange { channel, program } },
    ]);
    assert(r@ =~= head@ + note_events(seq.notes@.subrange(0, 0), channel));
    let mut i: usize = 0;
    while i < seq.notes.len()
        invariant
            i <= seq.notes@.len(),
            head@ == seq![
                TimedEvent { tick: 0, event: TrackEvent::Tempo(us_per_quarter(seq.bpm) as u32) },
                TimedEvent { tick: 0, event: TrackEvent::ProgramChange { channel, program } },
            ],
            r@ == head@ + note_events(seq.notes@.subrange(0, i as int), channel),
        decreases seq.notes.len() - i,
    {
        let n = seq.notes[i];
        proof {
            assert(seq.notes@.subrange(0, i + 1).drop_last() =~= seq.notes@.subrange(0, i as int));
        }
        r.push(
            TimedEvent {
                tick: n.start_tick,
                event: TrackEvent::NoteOn { channel, key: n.pitch, velocity: n.velocity },
            },
        );
        r.push(TimedEvent { tick: n.end_tick, event: TrackEvent::NoteOff { channel, key: n.pitch } });
        i = i + 1;
        proof {
            assert(r@ =~= head@ + note_events(seq.notes@.subrange(0, i as int), channel));
        }
    }
    assert(seq.notes@.subrange(0, i as int) =~= seq.notes@);
    assert(r@ =~= absolute_events(seq.notes@, seq.bpm, channel, program));
    r
}

proof fn lemma_insert_at(s: Seq<TimedEvent>, e: TimedEvent, j: int)
    requires
        0 <= j <= s.len(),
        forall|k: int| j <= k < s.len() ==> !precedes(#[trigger] s[k], e),
        j == 0 || precedes(s[j - 1], e),
    ensures
        insert_sorted(s, e) == s.insert(j, e),
    decreases s.len(),
{
    if j == s.len() {
        assert(s.insert(j, e) =~= s.push(e));
    } else {
        lemma_insert_at(s.drop_last(), e, j);
        assert(s.insert(j, e) =~= s.drop_last().insert(j, e).push(s.last()));
    }
}

/// Stable sort by tick, then by rank: events that tie on both keep their order.
pub fn sort_events(events: &Vec<TimedEvent>) -> (r: Vec<TimedEvent>)
    ensures
        r@ == sorted_events(events@),
{
    let mut out: Vec<TimedEvent> = Vec::new();
    let mut i: usize = 0;
    while i < events.len()
        invariant
            i <= events@.len(),
            out@ == sorted_events(events@.subrange(0, i as int)),
            out@.len() == i,
        decreases events.len() - i,
    {
        let e = events[i];
        let key = event_order_key(&e.event);
        let mut j: usize = out.len();
        while j > 0 && (out[j - 1].tick > e.tick || (out[j - 1].tick == e.tick && event_order_key(
            &out[j - 1].event,
        ) > key))
            invariant
                j <= out@.len(),
                key == rank(e.event),
                forall|k: int| j <= k < out@.len() ==> !precedes(#[trigger] out@[k], e),
            decreases j,
        {
            j = j - 1;
        }
        proof {
            lemma_insert_at(out@, e, j as int);
            assert(events@.subrange(0, i + 1).drop_last() =~= events@.subrange(0, i as int));
        }
        out.insert(j, e);
        i = i + 1;
    }
    assert(events@.subrange(0, i as int) =~= events@);
    out
}

/// Replaces each absolute tick by the distance from the previous event's
/// tick, floored at zero.
pub fn delta_encode(events: &Vec<TimedEvent>) -> (r: Vec<TimedEvent>)
    ensures
        r@ == to_deltas(events@),
{
    let mut r: Vec<TimedEvent> = Vec::new();
    let mut last_tick: u32 = 0;
    let mut i: usize = 0;
    while i < events.len()
        invariant
            i <= events@.len(),
            r@.len() == i,
            forall|k: int| 0 <= k < i ==> #[trigger] r@[k] == to_deltas(events@)[k],
            i == 0 ==> last_tick == 0,
            i > 0 ==> last_tick == events@[i - 1].tick,
        decreases events.len() - i,
    {
        let e = events[i];
        let delta: u32 = if e.tick >= last_tick {
            e.tick - last_tick
        } else {
            0
        };
        last_tick = e.tick;
        r.push(TimedEvent { tick: delta, event: e.event });
        i = i + 1;
    }
    assert(r@ =~= to_deltas(events@));
    r
}

/// Encodes `seq` as one track: tempo and program change, a note-on and a
/// note-off per note, stably sorted by tick and rank, in delta ticks, and
/// closed by End of Track.
pub fn encode_track(seq: &Sequence, channel: u8, program: u8) -> (r: Vec<TimedEvent>)
    ensures
        r@ == encoded_stream(seq.notes@, seq.bpm, channel, program),
        r@.len() == 2 * seq.notes@.len() + 3,
        r@.last() == end_of_track(),
{
    let events = collect_events(seq, channel, program);
    let sorted = sort_events(&events);
    let mut r = delta_encode(&sorted);
    r.push(TimedEvent { tick: 0, event: TrackEvent::EndOfTrack });
    proof {
        lemma_stream_length(seq.notes@, seq.bpm, channel, program);
    }
    r
}

/// Every element may precede every later one.
pub open spec fn is_ordered(s: Seq<TimedEvent>) -> bool {
    forall|i: int, j: int| 0 <= i < j < s.len() ==> precedes(#[trigger] s[i], #[trigger] s[j])
}

proof fn lemma_note_events_len(notes: Seq<NoteEvent>, channel: u8)
    ensures
        note_events(notes, channel).len() == 2 * notes.len(),
    decreases notes.len(),
{
    if notes.len() > 0 {
        lemma_note_events_len(notes.drop_last(), channel);
    }
}

proof fn lemma_insert_sorted(s: Seq<TimedEvent>, e: TimedEvent)
    ensures
        insert_sorted(s, e).len() == s.len() + 1,
        insert_sorted(s, e).to_multiset() == s.to_multiset().insert(e),
        forall|k: int|
            0 <= k < insert_sorted(s, e).len() ==> #[trigger] insert_sorted(s, e)[k] == e || s.contains(
                insert_sorted(s, e)[k],
            ),
        is_ordered(s) ==> is_ordered(insert_sorted(s, e)),
    decreases s.len(),
{
    broadcast use vstd::seq_lib::group_to_multiset_ensures;

    let r = insert_sorted(s, e);
    if s.len() == 0 || precedes(s.last(), e) {
        assert forall|k: int| 0 <= k < r.len() implies #[trigger] r[k] == e || s.contains(r[k]) by {
            if k < s.len() {
                assert(r[k] == s[k]);
            }
        }
        if is_ordered(s) {
            assert forall|i: int, j: int| 0 <= i < j < r.len() implies precedes(#[trigger] r[i], #[trigger] r[j]) by {
                if j == s.len() && i < s.len() - 1 {
                    assert(precedes(s[i], s[s.len() - 1]));
                }
            }
        }
    } else {
        let t = s.drop_last();
        let m = insert_sorted(t, e);
        lemma_insert_sorted(t, e);
        assert(s =~= t.push(s.last()));
        assert(s.to_multiset() == t.to_multiset().insert(s.last()));
        assert(r.to_multiset() =~= s.to_multiset().insert(e));
        assert forall|k: int| 0 <= k < r.len() implies #[trigger] r[k] == e || s.contains(r[k]) by {
            if k < m.len() {
                if m[k] != e {
                    let w = choose|w: int| 0 <= w < t.len() && t[w] == m[k];
                    assert(s[w] == m[k]);
                }
            } else {
                assert(s[s.len() - 1] == r[k]);
            }
        }
        if is_ordered(s) {
            assert(is_ordered(t)) by {
                assert forall|i: int, j: int| 0 <= i < j < t.len() implies precedes(#[trigger] t[i], #[trigger] t[j]) by {
                    assert(t[i] == s[i] && t[j] == s[j]);
                }
            }
            assert forall|i: int, j: int| 0 <= i < j < r.len() implies precedes(#[trigger] r[i], #[trigger] r[j]) by {
                if j == m.len() {
                    if m[i] != e {
                        let w = choose|w: int| 0 <= w < t.len() && t[w] == m[i];
                        assert(precedes(s[w], s[s.len() - 1]));
                    }
                } else {
                    assert(r[i] == m[i] && r[j] == m[j]);
                }
            }
        }
    }
}

/// The sort is a permutation of its input and leaves it ordered by tick,
/// then rank.
pub proof fn lemma_sorted_events(s: Seq<TimedEvent>)
    ensures
        sorted_events(s).len() == s.len(),
        sorted_events(s).to_multiset() == s.to_multiset(),
        is_ordered(sorted_events(s)),
    decreases s.len(),
{
    broadcast use vstd::seq_lib::group_to_multiset_ensures;

    if s.len() > 0 {
        let t = s.drop_last();
        lemma_sorted_events(t);
        lemma_insert_sorted(sorted_events(t), s.last());
        assert(s =~= t.push(s.last()));
    }
}

/// The events of `s` with tick `tick` and rank `key_rank`, in their order in `s`.
pub open spec fn with_key(s: Seq<TimedEvent>, tick: u32, key_rank: u8) -> Seq<TimedEvent>
    decreases s.len(),
{
    if s.len() == 0 {
        s
    } else if s.last().tick == tick && rank(s.last().event) == key_rank {
        with_key(s.drop_last(), tick, key_rank).push(s.last())
    } else {
        with_key(s.drop_last(), tick, key_rank)
    }
}

proof fn lemma_insert_keeps_key_order(s: Seq<TimedEvent>, e: TimedEvent, tick: u32, key_rank: u8)
    ensures
        with_key(insert_sorted(s, e), tick, key_rank) == if e.tick == tick && rank(e.event) == key_rank {
            with_key(s, tick, key_rank).push(e)
        } else {
            with_key(s, tick, key_rank)
        },
    decreases s.len(),
{
    if s.len() == 0 || precedes(s.last(), e) {
        assert(s.push(e).drop_last() =~= s);
    } else {
        let t = s.drop_last();
        lemma_insert_keeps_key_order(t, e, tick, key_rank);
        let m = insert_sorted(t, e);
        assert(m.push(s.last()).drop_last() =~= m);
    }
}

/// The sort is stable: for every tick and rank, the events that have both
/// keep the order they had in the input.
pub proof fn lemma_sort_stable(s: Seq<TimedEvent>, tick: u32, key_rank: u8)
    ensures
        with_key(sorted_events(s), tick, key_rank) == with_key(s, tick, key_rank),
    decreases s.len(),
{
    if s.len() > 0 {
        let t = s.drop_last();
        lemma_sort_stable(t, tick, key_rank);
        lemma_insert_keeps_key_order(sorted_events(t), s.last(), tick, key_rank);
    }
}

/// The encoded track holds `2 + 2 * N + 1` events for `N` notes, and its
/// last event is End of Track at delta zero.
pub proof fn lemma_stream_length(notes: Seq<NoteEvent>, bpm: u32, channel: u8, program: u8)
    ensures
        encoded_stream(notes, bpm, channel, program).len() == 2 + 2 * notes.len() + 1,
        encoded_stream(notes, bpm, channel, program).last() == end_of_track(),
{
    lemma_note_events_len(notes, channel);
    lemma_sorted_events(absolute_events(notes, bpm, channel, program));
}

/// Sum of the first `n` delta ticks of `s`.
pub open spec fn elapsed(s: Seq<TimedEvent>, n: nat) -> nat
    decreases n,
{
    if n == 0 {
        0
    } else {
        elapsed(s, (n - 1) as nat) + s[n - 1].tick as nat
    }
}

/// The absolute tick of event `i` of a delta-encoded stream.
pub open spec fn absolute_tick(s: Seq<TimedEvent>, i: int) -> nat {
    elapsed(s, (i + 1) as nat)
}

proof fn lemma_elapsed_prefix(s: Seq<TimedEvent>, x: TimedEvent, n: nat)
    requires
        n <= s.len(),
    ensures
        elapsed(s.push(x), n) == elapsed(s, n),
    decreases n,
{
    if n > 0 {
        lemma_elapsed_prefix(s, x, (n - 1) as nat);
    }
}

proof fn lemma_elapsed_deltas(t: Seq<TimedEvent>, n: nat)
    requires
        is_ordered(t),
        1 <= n <= t.len(),
    ensures
        elapsed(to_deltas(t), n) == t[n - 1].tick,
    decreases n,
{
    reveal_with_fuel(elapsed, 2);
    if n > 1 {
        lemma_elapsed_deltas(t, (n - 1) as nat);
        assert(precedes(t[n - 2], t[n - 1]));
    }
}

/// In the encoded track the absolute ticks never decrease, and where two
/// events share a tick a note-on never stands before a note-off.
pub proof fn lemma_stream_order(notes: Seq<NoteEvent>, bpm: u32, channel: u8, program: u8)
    ensures
        forall|i: int, j: int|
            0 <= i <= j < encoded_stream(notes, bpm, channel, program).len() ==> #[trigger] absolute_tick(
                encoded_stream(notes, bpm, channel, program),
                i,
            ) <= #[trigger] absolute_tick(encoded_stream(notes, bpm, channel, program), j),
        forall|i: int, j: int|
            0 <= i < j < encoded_stream(notes, bpm, channel, program).len() && absolute_tick(
                encoded_stream(notes, bpm, channel, program),
                i,
            ) == absolute_tick(encoded_stream(notes, bpm, channel, program), j) && (
            #[trigger] encoded_stream(notes, bpm, channel, program)[i]).event is NoteOn ==> !((
            #[trigger] encoded_stream(notes, bpm, channel, program)[j]).event is NoteOff),
{
    let t = sorted_events(absolute_events(notes, bpm, channel, program));
    let d = to_deltas(t);
    let s = encoded_stream(notes, bpm, channel, program);
    lemma_sorted_events(absolute_events(notes, bpm, channel, program));
    lemma_stream_length(notes, bpm, channel, program);
    assert(t.len() >= 2);
    assert forall|k: int| 0 <= k < s.len() implies #[trigger] absolute_tick(s, k) == t[if k < t.len() {
        k
    } else {
        t.len() - 1
    }].tick by {
        if k < t.len() {
            lemma_elapsed_prefix(d, end_of_track(), (k + 1) as nat);
            lemma_elapsed_deltas(t, (k + 1) as nat);
        } else {
            lemma_elapsed_prefix(d, end_of_track(), t.len());
            lemma_elapsed_deltas(t, t.len());
            assert(s[k] == end_of_track());
        }
    }
    assert forall|i: int, j: int| 0 <= i <= j < s.len() implies #[trigger] absolute_tick(s, i)
        <= #[trigger] absolute_tick(s, j) by {
        let a = if i < t.len() { i } else { t.len() - 1 };
        let b = if j < t.len() { j } else { t.len() - 1 };
        if a < b {
            assert(precedes(t[a], t[b]));
        }
    }
    assert forall|i: int, j: int|
        0 <= i < j < s.len() && absolute_tick(s, i) == absolute_tick(s, j) && (#[trigger] s[i]).event is NoteOn
        implies !((#[trigger] s[j]).event is NoteOff) by {
        if j < t.len() {
            assert(precedes(t[i], t[j]));
            assert(s[i].event == t[i].event && s[j].event == t[j].event);
        } else {
            assert(s[j] == end_of_track());
        }
    }
}

/// Two generator runs on one configuration give the same notes and timing,
/// and encode to the same track.
pub proof fn lemma_same_seed_same_track(cfg: Config, a: Sequence, b: Sequence, channel: u8, program: u8)
    requires
        sequence_of(cfg, seeded_step_draws(cfg), a),
        sequence_of(cfg, seeded_step_draws(cfg), b),
    ensures
        a.notes@ == b.notes@,
        a.bpm == b.bpm,
        a.ticks_per_quarter == b.ticks_per_quarter,
        a.total_ticks == b.total_ticks,
        encoded_stream(a.notes@, a.bpm, channel, program) == encoded_stream(b.notes@, b.bpm, channel, program),
{
}

/// Encoding depends on the notes, the tempo, the channel and the program
/// alone: encoding one sequence twice gives the same track.
pub proof fn lemma_encoding_repeatable(a: Sequence, b: Sequence, channel: u8, program: u8)
    requires
        a.notes@ == b.notes@,
        a.bpm == b.bpm,
    ensures
        encoded_stream(a.notes@, a.bpm, channel, program) == encoded_stream(b.notes@, b.bpm, channel, program),
{
}

} // verus!
