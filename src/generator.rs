use crate::config::{scale_semitones, scale_table, Config, MIDI_DATA_MAX, STEPS_PER_BAR};
use crate::rng::{chacha8_draw, SeededRng};
use vstd::prelude::*;

verus! {

/// Percent of steps that stay silent.
pub const REST_PERCENT: u32 = 55;

/// Percent of sounding steps that move by at most one degree from the last one.
pub const STEPWISE_PERCENT: u32 = 65;

/// Draws below this shift a note one octave up.
pub const OCTAVE_UP_BELOW: u32 = 10;

/// Draws from `OCTAVE_UP_BELOW` up to this shift a note one octave down.
pub const OCTAVE_DOWN_BELOW: u32 = 15;

/// Lowest base velocity.
pub const VELOCITY_LOW: u32 = 55;

/// One past the highest base velocity.
pub const VELOCITY_HIGH: u32 = 95;

/// Velocity added on every quarter-note downbeat.
pub const ACCENT: u32 = 18;

/// Range of a percentage draw.
pub const PERCENT: u32 = 100;

/// One generated note, in ticks from the start of the sequence.
#[derive(Clone, Copy, Debug, PartialEq, Eq, Structural)]
pub struct NoteEvent {
    pub pitch: u8,
    pub start_tick: u32,
    pub end_tick: u32,
    pub velocity: u8,
}

/// A generated melody with the timing it was generated for.
#[derive(Clone, Debug)]
pub struct Sequence {
    pub notes: Vec<NoteEvent>,
    pub bpm: u32,
    pub ticks_per_quarter: u16,
    pub total_ticks: u32,
}

/// The random values read for one grid step, in the order they are drawn.
/// A resting step reads only `rest`; a step that keeps its anchor reads no
/// `turn`. Values that were not read are zero.
#[derive(Clone, Copy, Debug, PartialEq, Eq, Structural)]
pub struct StepDraws {
    pub rest: u32,
    pub anchor: u32,
    pub motion: u32,
    pub turn: u32,
    pub octave: u32,
    pub length: u32,
    pub velocity: u32,
}

/// Sum of the weights of a weighted table.
pub open spec fn weight_total(items: Seq<(u8, u32)>) -> nat
    decreases items.len(),
{
    if items.len() == 0 {
        0
    } else {
        weight_total(items.drop_last()) + items.last().1 as nat
    }
}

/// Inverse-CDF selection: the first entry whose cumulative weight exceeds
/// `x`; the last entry when none does.
pub open spec fn pick(items: Seq<(u8, u32)>, x: int) -> u8
    decreases items.len(),
{
    if items.len() == 0 {
        0
    } else if x < items[0].1 || items.len() == 1 {
        items[0].0
    } else {
        pick(items.drop_first(), x - items[0].1)
    }
}

/// Weights of the anchor degrees: the root and the third are favoured.
pub open spec fn anchor_table() -> Seq<(u8, u32)> {
    seq![(0u8, 30u32), (1u8, 15u32), (2u8, 30u32), (3u8, 15u32), (4u8, 10u32)]
}

/// Weights of the note lengths, in grid steps.
pub open spec fn length_table() -> Seq<(u8, u32)> {
    seq![(1u8, 40u32), (2u8, 30u32), (3u8, 10u32), (4u8, 20u32)]
}

/// `v` limited to `lo..=hi`.
pub open spec fn clamp(v: int, lo: int, hi: int) -> int {
    if v < lo {
        lo
    } else if v > hi {
        hi
    } else {
        v
    }
}

/// `v` limited to at most `hi`.
pub open spec fn cap(v: int, hi: int) -> int {
    if v > hi {
        hi
    } else {
        v
    }
}

/// Range of the anchor draw for a scale with `degrees` degrees.
pub open spec fn anchor_bound(degrees: nat) -> nat {
    if degrees >= 3 {
        weight_total(anchor_table())
    } else {
        degrees
    }
}

/// The anchor degree: a weighted pick, or a uniform one on scales of fewer
/// than three degrees, clamped into the scale.
pub open spec fn anchor_degree(degrees: nat, anchor: u32) -> int {
    if degrees >= 3 {
        clamp(pick(anchor_table(), anchor as int) as int, 0, degrees - 1)
    } else {
        clamp(anchor as int, 0, degrees - 1)
    }
}

/// A stepwise move down, none, or up.
pub open spec fn turn_delta(turn: u32) -> int {
    if turn == 0 {
        -1
    } else if turn == 1 {
        0
    } else {
        1
    }
}

/// The degree of a sounding step, given the degree of the last note.
pub open spec fn next_degree(degrees: nat, last: int, d: StepDraws) -> int {
    if d.motion < STEPWISE_PERCENT {
        clamp(last + turn_delta(d.turn), 0, degrees - 1)
    } else {
        anchor_degree(degrees, d.anchor)
    }
}

/// Semitones added by the octave draw.
pub open spec fn octave_shift(octave: u32) -> int {
    if octave < OCTAVE_UP_BELOW {
        12
    } else if octave < OCTAVE_DOWN_BELOW {
        -12
    } else {
        0
    }
}

/// Velocity added on quarter-note downbeats.
pub open spec fn accent(step: nat) -> nat {
    if step % 4 == 0 {
        ACCENT as nat
    } else {
        0
    }
}

/// The note sounded at `step` on `degree`.
pub open spec fn note_at(cfg: Config, step: nat, degree: int, d: StepDraws) -> NoteEvent {
    let offset = scale_table(cfg.scale)[degree] as int;
    let start = step * cfg.step_ticks();
    let end = cap(start + pick(length_table(), d.length as int) * cfg.step_ticks(), cfg.total_ticks() as int);
    NoteEvent {
        pitch: clamp(cfg.root_pitch + offset + octave_shift(d.octave), 0, MIDI_DATA_MAX as int) as u8,
        start_tick: start as u32,
        end_tick: end as u32,
        velocity: cap(d.velocity + accent(step), MIDI_DATA_MAX as int) as u8,
    }
}

/// What one step yields: a note or a rest, and the degree carried to the next step.
pub open spec fn step_outcome(cfg: Config, step: nat, last: int, d: StepDraws) -> (Option<NoteEvent>, int) {
    if d.rest < REST_PERCENT {
        (None, last)
    } else {
        let degree = next_degree(scale_table(cfg.scale).len(), last, d);
        (Some(note_at(cfg, step, degree, d)), degree)
    }
}

/// The notes of the first `draws.len()` steps and the degree carried after them.
pub open spec fn generated(cfg: Config, draws: Seq<StepDraws>) -> (Seq<NoteEvent>, int)
    decreases draws.len(),
{
    if draws.len() == 0 {
        (Seq::empty(), 0)
    } else {
        let prev = generated(cfg, draws.drop_last());
        let out = step_outcome(cfg, (draws.len() - 1) as nat, prev.1, draws.last());
        (
            match out.0 {
                Some(n) => prev.0.push(n),
                None => prev.0,
            },
            out.1,
        )
    }
}

/// The values a step's draws can take.
pub open spec fn draws_in_range(cfg: Config, d: StepDraws) -> bool {
    &&& d.rest < PERCENT
    &&& d.rest >= REST_PERCENT ==> {
        &&& d.anchor < anchor_bound(scale_table(cfg.scale).len())
        &&& d.motion < PERCENT
        &&& d.motion < STEPWISE_PERCENT ==> d.turn < 3
        &&& d.octave < PERCENT
        &&& d.length < weight_total(length_table())
        &&& VELOCITY_LOW <= d.velocity < VELOCITY_HIGH
    }
}

/// One step's draws from the generator seeded with `seed` after it has
/// served `earlier`, in the fixed order rest, anchor, motion, turn, octave,
/// length, velocity; and the ranges served after them.
pub open spec fn seeded_step(seed: u64, earlier: Seq<(u32, u32)>, degrees: nat) -> (StepDraws, Seq<(u32, u32)>) {
    let rest = chacha8_draw(seed, earlier, 0, PERCENT);
    let h1 = earlier.push((0u32, PERCENT));
    if rest < REST_PERCENT {
        (StepDraws { rest, anchor: 0, motion: 0, turn: 0, octave: 0, length: 0, velocity: 0 }, h1)
    } else {
        let abound = anchor_bound(degrees) as u32;
        let anchor = chacha8_draw(seed, h1, 0, abound);
        let h2 = h1.push((0u32, abound));
        let motion = chacha8_draw(seed, h2, 0, PERCENT);
        let h3 = h2.push((0u32, PERCENT));
        let turn = if motion < STEPWISE_PERCENT {
            chacha8_draw(seed, h3, 0, 3)
        } else {
            0
        };
        let h4 = if motion < STEPWISE_PERCENT {
            h3.push((0u32, 3u32))
        } else {
            h3
        };
        let octave = chacha8_draw(seed, h4, 0, PERCENT);
        let h5 = h4.push((0u32, PERCENT));
        let lbound = weight_total(length_table()) as u32;
        let length = chacha8_draw(seed, h5, 0, lbound);
        let h6 = h5.push((0u32, lbound));
        let velocity = chacha8_draw(seed, h6, VELOCITY_LOW, VELOCITY_HIGH);
        let h7 = h6.push((VELOCITY_LOW, VELOCITY_HIGH));
        (StepDraws { rest, anchor, motion, turn, octave, length, velocity }, h7)
    }
}

/// The draws of the first `n` steps for `cfg`, and the ranges served by them.
pub open spec fn seeded_draws(cfg: Config, n: nat) -> (Seq<StepDraws>, Seq<(u32, u32)>)
    decreases n,
{
    if n == 0 {
        (Seq::empty(), Seq::empty())
    } else {
        let prev = seeded_draws(cfg, (n - 1) as nat);
        let next = seeded_step(cfg.seed, prev.1, scale_table(cfg.scale).len());
        (prev.0.push(next.0), next.1)
    }
}

proof fn lemma_seeded_draws_len(cfg: Config, n: nat)
    ensures
        seeded_draws(cfg, n).0.len() == n,
    decreases n,
{
    if n > 0 {
        lemma_seeded_draws_len(cfg, (n - 1) as nat);
    }
}

/// One record of draws per grid step, read from the generator seeded with
/// `cfg.seed`.
pub open spec fn seeded_step_draws(cfg: Config) -> Seq<StepDraws> {
    seeded_draws(cfg, cfg.total_steps()).0
}

/// A note in MIDI range that lies inside the sequence.
pub open spec fn note_fits(cfg: Config, n: NoteEvent) -> bool {
    &&& n.pitch <= MIDI_DATA_MAX
    &&& n.velocity <= MIDI_DATA_MAX
    &&& n.start_tick <= n.end_tick <= cfg.total_ticks()
}

/// The note ends one to four steps after its start, or at the end of the
/// sequence where that comes first.
pub open spec fn end_is_clipped(cfg: Config, n: NoteEvent) -> bool {
    exists|k: nat|
        1 <= k <= 4 && n.end_tick == cap(n.start_tick + #[trigger] (k * cfg.step_ticks()), cfg.total_ticks() as int)
}

/// `r` is the sequence generated for `cfg` from `draws`.
pub open spec fn sequence_of(cfg: Config, draws: Seq<StepDraws>, r: Sequence) -> bool {
    &&& r.notes@ == generated(cfg, draws).0
    &&& r.bpm == cfg.bpm
    &&& r.ticks_per_quarter == cfg.ticks_per_quarter
    &&& r.total_ticks == cfg.total_ticks()
}

proof fn lemma_prefix_total(items: Seq<(u8, u32)>, i: int)
    requires
        0 <= i <= items.len(),
    ensures
        weight_total(items.subrange(0, i)) <= weight_total(items),
    decreases items.len() - i,
{
    if i < items.len() {
        lemma_prefix_total(items, i + 1);
        assert(items.subrange(0, i + 1).drop_last() =~= items.subrange(0, i));
    } else {
        assert(items.subrange(0, i) =~= items);
    }
}

/// Sum of the weights of a table.
pub fn total_weight(items: &[(u8, u32)]) -> (r: u32)
    requires
        weight_total(items@) <= u32::MAX,
    ensures
        r == weight_total(items@),
{
    let mut total: u32 = 0;
    let mut i: usize = 0;
    while i < items.len()
        invariant
            i <= items@.len(),
            total == weight_total(items@.subrange(0, i as int)),
            weight_total(items@) <= u32::MAX,
        decreases items.len() - i,
    {
        proof {
            lemma_prefix_total(items@, i + 1);
            assert(items@.subrange(0, i + 1).drop_last() =~= items@.subrange(0, i as int));
        }
        total = total + items[i].1;
        i = i + 1;
    }
    assert(items@.subrange(0, i as int) =~= items@);
    total
}

/// Picks the entry of `items` that the draw `x` falls on: the first whose
/// cumulative weight exceeds `x`, or the last entry.
pub fn pick_weighted(items: &[(u8, u32)], x: u32) -> (r: u8)
    requires
        items@.len() > 0,
    ensures
        r == pick(items@, x as int),
{
    let mut i: usize = 0;
    let mut rest: u32 = x;
    assert(items@.subrange(0, items@.len() as int) =~= items@);
    loop
        invariant
            i < items@.len(),
            pick(items@, x as int) == pick(items@.subrange(i as int, items@.len() as int), rest as int),
        decreases items.len() - i,
    {
        let (v, w) = items[i];
        if rest < w || i + 1 == items.len() {
            return v;
        }
        assert(items@.subrange(i as int, items@.len() as int).drop_first() =~= items@.subrange(
            i + 1,
            items@.len() as int,
        ));
        rest = rest - w;
        i = i + 1;
    }
}

fn anchor_weights() -> (r: Vec<(u8, u32)>)
    ensures
        r@ == anchor_table(),
{
    let r = vec![(0u8, 30u32), (1u8, 15u32), (2u8, 30u32), (3u8, 15u32), (4u8, 10u32)];
    assert(r@ =~= anchor_table());
    r
}

fn length_weights() -> (r: Vec<(u8, u32)>)
    ensures
        r@ == length_table(),
{
    let r = vec![(1u8, 40u32), (2u8, 30u32), (3u8, 10u32), (4u8, 20u32)];
    assert(r@ =~= length_table());
    r
}

/// Both weighted tables sum to one hundred.
pub proof fn lemma_table_totals()
    ensures
        weight_total(anchor_table()) == 100,
        weight_total(length_table()) == 100,
{
    reveal_with_fuel(weight_total, 6);
    assert(anchor_table().drop_last() =~= seq![(0u8, 30u32), (1u8, 15u32), (2u8, 30u32), (3u8, 15u32)]);
    assert(anchor_table().drop_last().drop_last() =~= seq![(0u8, 30u32), (1u8, 15u32), (2u8, 30u32)]);
    assert(anchor_table().drop_last().drop_last().drop_last() =~= seq![(0u8, 30u32), (1u8, 15u32)]);
    assert(anchor_table().drop_last().drop_last().drop_last().drop_last() =~= seq![(0u8, 30u32)]);
    assert(seq![(0u8, 30u32)].drop_last() =~= Seq::<(u8, u32)>::empty());
    assert(length_table().drop_last() =~= seq![(1u8, 40u32), (2u8, 30u32), (3u8, 10u32)]);
    assert(length_table().drop_last().drop_last() =~= seq![(1u8, 40u32), (2u8, 30u32)]);
    assert(length_table().drop_last().drop_last().drop_last() =~= seq![(1u8, 40u32)]);
    assert(seq![(1u8, 40u32)].drop_last() =~= Seq::<(u8, u32)>::empty());
}

/// Every note length is between one and four steps.
pub proof fn lemma_length_range(x: int)
    ensures
        1 <= pick(length_table(), x) <= 4,
{
    reveal_with_fuel(pick, 5);
    let t = length_table();
    assert(t.drop_first() =~= seq![(2u8, 30u32), (3u8, 10u32), (4u8, 20u32)]);
    assert(t.drop_first().drop_first() =~= seq![(3u8, 10u32), (4u8, 20u32)]);
    assert(t.drop_first().drop_first().drop_first() =~= seq![(4u8, 20u32)]);
}

/// `v` limited to `lo..=hi`.
fn clamp_i64(v: i64, lo: i64, hi: i64) -> (r: i64)
    requires
        lo <= hi,
    ensures
        r == clamp(v as int, lo as int, hi as int),
{
    if v < lo {
        lo
    } else if v > hi {
        hi
    } else {
        v
    }
}

/// Ticks of one grid step.
pub fn step_ticks(cfg: &Config) -> (r: u32)
    ensures
        r == cfg.step_ticks(),
{
    cfg.ticks_per_quarter as u32 / 4
}

/// Grid steps of the whole sequence.
pub fn total_steps(cfg: &Config) -> (r: u32)
    requires
        cfg.fits(),
    ensures
        r == cfg.total_steps(),
{
    cfg.bars * STEPS_PER_BAR
}

/// Ticks of the whole sequence.
pub fn total_ticks(cfg: &Config) -> (r: u32)
    requires
        cfg.fits(),
    ensures
        r == cfg.total_ticks(),
{
    total_steps(cfg) * step_ticks(cfg)
}

/// Applies the rules of one grid step to its draws: returns the note sounded
/// at `step`, if any, and the degree to carry to the next step.
pub fn note_for_step(cfg: &Config, step: u32, last_degree: u32, d: &StepDraws) -> (r: (Option<NoteEvent>, u32))
    requires
        cfg.valid(),
        cfg.fits(),
        step < cfg.total_steps(),
    ensures
        r.0 == step_outcome(*cfg, step as nat, last_degree as int, *d).0,
        r.1 as int == step_outcome(*cfg, step as nat, last_degree as int, *d).1,
{
    if d.rest < REST_PERCENT {
        return (None, last_degree);
    }
    let scale = scale_semitones(cfg.scale);
    proof {
        crate::config::lemma_scale_table_shape(cfg.scale);
    }
    let top: i64 = scale.len() as i64 - 1;
    let anchor: i64 = if scale.len() >= 3 {
        let table = anchor_weights();
        clamp_i64(pick_weighted(table.as_slice(), d.anchor) as i64, 0, top)
    } else {
        clamp_i64(d.anchor as i64, 0, top)
    };
    let degree: i64 = if d.motion < STEPWISE_PERCENT {
        let delta: i64 = if d.turn == 0 {
            -1
        } else if d.turn == 1 {
            0
        } else {
            1
        };
        clamp_i64(last_degree as i64 + delta, 0, top)
    } else {
        anchor
    };
    let offset: i64 = scale[degree as usize] as i64;
    let shift: i64 = if d.octave < OCTAVE_UP_BELOW {
        12
    } else if d.octave < OCTAVE_DOWN_BELOW {
        -12
    } else {
        0
    };
    let pitch = clamp_i64(cfg.root_pitch as i64 + offset + shift, 0, MIDI_DATA_MAX as i64) as u8;

    let st = step_ticks(cfg);
    let total = total_ticks(cfg);
    proof {
        assert(step as int * st <= cfg.total_ticks()) by (nonlinear_arith)
            requires
                step < cfg.total_steps(),
                st == cfg.step_ticks(),
                cfg.total_ticks() == cfg.total_steps() * cfg.step_ticks(),
        ;
    }
    let start: u32 = step * st;
    let table = length_weights();
    let length = pick_weighted(table.as_slice(), d.length);
    proof {
        lemma_length_range(d.length as int);
        assert(length as u64 * st as u64 <= 4 * 0x4000) by (nonlinear_arith)
            requires
                length <= 4,
                st <= 0x4000,
        ;
    }
    let reach: u64 = start as u64 + length as u64 * st as u64;
    let end: u32 = if reach > total as u64 {
        total
    } else {
        reach as u32
    };
    let accent: u32 = if step % 4 == 0 {
        ACCENT
    } else {
        0
    };
    let loud: u64 = d.velocity as u64 + accent as u64;
    let velocity: u8 = if loud > MIDI_DATA_MAX as u64 {
        MIDI_DATA_MAX
    } else {
        loud as u8
    };
    (Some(NoteEvent { pitch, start_tick: start, end_tick: end, velocity }), degree as u32)
}

/// Builds the sequence of `cfg` from one record of draws per grid step.
pub fn sequence_from_draws(cfg: &Config, draws: &Vec<StepDraws>) -> (r: Sequence)
    requires
        cfg.valid(),
        cfg.fits(),
        draws@.len() == cfg.total_steps(),
    ensures
        sequence_of(*cfg, draws@, r),
        forall|i: int| 0 <= i < r.notes@.len() ==> note_fits(*cfg, #[trigger] r.notes@[i]),
{
    let mut notes: Vec<NoteEvent> = Vec::new();
    let mut last: u32 = 0;
    let mut step: usize = 0;
    while step < draws.len()
        invariant
            step <= draws@.len(),
            draws@.len() == cfg.total_steps(),
            cfg.valid(),
            cfg.fits(),
            notes@ == generated(*cfg, draws@.subrange(0, step as int)).0,
            last as int == generated(*cfg, draws@.subrange(0, step as int)).1,
        decreases draws.len() - step,
    {
        proof {
            assert(draws@.subrange(0, step + 1).drop_last() =~= draws@.subrange(0, step as int));
        }
        let (note, degree) = note_for_step(cfg, step as u32, last, &draws[step]);
        match note {
            Some(n) => notes.push(n),
            None => {},
        }
        last = degree;
        step = step + 1;
    }
    assert(draws@.subrange(0, step as int) =~= draws@);
    proof {
        lemma_generated_bounds(*cfg, draws@);
    }
    Sequence {
        notes,
        bpm: cfg.bpm,
        ticks_per_quarter: cfg.ticks_per_quarter,
        total_ticks: total_ticks(cfg),
    }
}

/// Reads one step's draws from `rng`, in the fixed order: rest, anchor,
/// motion, turn, octave, length, velocity.
fn draw_step(rng: &mut SeededRng, cfg: &Config, anchor_total: u32, length_total: u32) -> (d: StepDraws)
    requires
        anchor_total == weight_total(anchor_table()),
        length_total == weight_total(length_table()),
    ensures
        draws_in_range(*cfg, d),
        (d, final(rng).ranges()) == seeded_step(old(rng).seed(), old(rng).ranges(), scale_table(cfg.scale).len()),
        final(rng).seed() == old(rng).seed(),
{
    proof {
        lemma_table_totals();
        crate::config::lemma_scale_table_shape(cfg.scale);
    }
    let rest = rng.draw(0, PERCENT);
    if rest < REST_PERCENT {
        return StepDraws { rest, anchor: 0, motion: 0, turn: 0, octave: 0, length: 0, velocity: 0 };
    }
    let degrees = scale_semitones(cfg.scale).len();
    let anchor = if degrees >= 3 {
        rng.draw(0, anchor_total)
    } else {
        rng.draw(0, degrees as u32)
    };
    let motion = rng.draw(0, PERCENT);
    let turn = if motion < STEPWISE_PERCENT {
        rng.draw(0, 3)
    } else {
        0
    };
    let octave = rng.draw(0, PERCENT);
    let length = rng.draw(0, length_total);
    let velocity = rng.draw(VELOCITY_LOW, VELOCITY_HIGH);
    StepDraws { rest, anchor, motion, turn, octave, length, velocity }
}

/// Generates the melody of `cfg` from a ChaCha8 generator seeded with
/// `cfg.seed`: the sequence the step rules build from the seeded draws.
pub fn generate_sequence(cfg: &Config) -> (r: Sequence)
    requires
        cfg.valid(),
        cfg.fits(),
    ensures
        sequence_of(*cfg, seeded_step_draws(*cfg), r),
        forall|i: int| 0 <= i < r.notes@.len() ==> note_fits(*cfg, #[trigger] r.notes@[i]),
{
    proof {
        lemma_table_totals();
    }
    let mut rng = SeededRng::new(cfg.seed);
    let anchor_total = total_weight(anchor_weights().as_slice());
    let length_total = total_weight(length_weights().as_slice());
    let steps = total_steps(cfg);
    let mut draws: Vec<StepDraws> = Vec::new();
    let mut step: u32 = 0;
    while step < steps
        invariant
            step <= steps,
            steps == cfg.total_steps(),
            anchor_total == weight_total(anchor_table()),
            length_total == weight_total(length_table()),
            rng.seed() == cfg.seed,
            (draws@, rng.ranges()) == seeded_draws(*cfg, step as nat),
        decreases steps - step,
    {
        let d = draw_step(&mut rng, cfg, anchor_total, length_total);
        draws.push(d);
        step = step + 1;
    }
    proof {
        lemma_seeded_draws_len(*cfg, step as nat);
    }
    sequence_from_draws(cfg, &draws)
}

/// Every generated note has pitch and velocity in 0..=127 and satisfies
/// start <= end <= total ticks; its end is its start plus one to four steps,
/// clipped to the total length.
pub proof fn lemma_generated_bounds(cfg: Config, draws: Seq<StepDraws>)
    requires
        cfg.valid(),
        cfg.fits(),
        draws.len() <= cfg.total_steps(),
    ensures
        forall|i: int|
            0 <= i < generated(cfg, draws).0.len() ==> note_fits(cfg, #[trigger] generated(cfg, draws).0[i])
                && end_is_clipped(cfg, generated(cfg, draws).0[i]),
    decreases draws.len(),
{
    if draws.len() > 0 {
        let prev = generated(cfg, draws.drop_last());
        lemma_generated_bounds(cfg, draws.drop_last());
        let step = (draws.len() - 1) as nat;
        let d = draws.last();
        if d.rest >= REST_PERCENT {
            let degree = next_degree(scale_table(cfg.scale).len(), prev.1, d);
            let n = note_at(cfg, step, degree, d);
            let st = cfg.step_ticks();
            let start = step * st;
            let k = pick(length_table(), d.length as int) as nat;
            lemma_length_range(d.length as int);
            assert(start <= cfg.total_ticks()) by (nonlinear_arith)
                requires
                    step < cfg.total_steps(),
                    start == step * st,
                    cfg.total_ticks() == cfg.total_steps() * st,
            ;
            assert(k * st >= 0) by (nonlinear_arith)
                requires
                    k >= 1,
            ;
            assert(n.start_tick == start);
            assert(1 <= k <= 4 && n.end_tick == cap(n.start_tick + k * st, cfg.total_ticks() as int));
            assert(end_is_clipped(cfg, n));
            assert(note_fits(cfg, n));
            let notes = generated(cfg, draws).0;
            assert(notes == prev.0.push(n));
            assert forall|i: int| 0 <= i < notes.len() implies note_fits(cfg, #[trigger] notes[i])
                && end_is_clipped(cfg, notes[i]) by {
                if i < prev.0.len() {
                    assert(notes[i] == prev.0[i]);
                }
            }
        }
    }
}

proof fn lemma_seeded_draws_agree(c1: Config, c2: Config, n: nat)
    requires
        c1.seed == c2.seed,
        c1.scale == c2.scale,
    ensures
        seeded_draws(c1, n) == seeded_draws(c2, n),
    decreases n,
{
    if n > 0 {
        lemma_seeded_draws_agree(c1, c2, (n - 1) as nat);
    }
}

proof fn lemma_generated_agree(c1: Config, c2: Config, draws: Seq<StepDraws>)
    requires
        c1.bars == c2.bars,
        c1.ticks_per_quarter == c2.ticks_per_quarter,
        c1.root_pitch == c2.root_pitch,
        c1.scale == c2.scale,
    ensures
        generated(c1, draws) == generated(c2, draws),
    decreases draws.len(),
{
    if draws.len() > 0 {
        lemma_generated_agree(c1, c2, draws.drop_last());
    }
}

/// The notes depend on the seed, the bar count, the resolution, the root and
/// the scale alone: two configurations that agree on these (whatever their
/// tempo, channel or program) generate the same notes and the same length.
pub proof fn lemma_notes_depend_on_seed_and_grid(c1: Config, c2: Config)
    requires
        c1.seed == c2.seed,
        c1.bars == c2.bars,
        c1.ticks_per_quarter == c2.ticks_per_quarter,
        c1.root_pitch == c2.root_pitch,
        c1.scale == c2.scale,
    ensures
        seeded_step_draws(c1) == seeded_step_draws(c2),
        generated(c1, seeded_step_draws(c1)).0 == generated(c2, seeded_step_draws(c2)).0,
        c1.total_ticks() == c2.total_ticks(),
{
    lemma_seeded_draws_agree(c1, c2, c1.total_steps());
    lemma_generated_agree(c1, c2, seeded_step_draws(c1));
}

} // verus!
