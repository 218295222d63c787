use midi_seed_gen::config::{bpm_to_us_per_quarter, scale_semitones, Config, ConfigError, ScaleKind};
use midi_seed_gen::generator::{
    generate_sequence, note_for_step, pick_weighted, sequence_from_draws, step_ticks, total_steps,
    total_ticks, total_weight, NoteEvent, StepDraws,
};

fn config(seed: u64, bpm: u32, bars: u32, tpq: u16, scale: ScaleKind) -> Config {
    Config {
        seed,
        bpm,
        bars,
        ticks_per_quarter: tpq,
        root_pitch: 60,
        scale,
        channel: 0,
        program: 0,
    }
}

fn rest() -> StepDraws {
    StepDraws { rest: 10, anchor: 0, motion: 0, turn: 0, octave: 0, length: 0, velocity: 0 }
}

const ANCHOR: [(u8, u32); 5] = [(0, 30), (1, 15), (2, 30), (3, 15), (4, 10)];
const LENGTH: [(u8, u32); 4] = [(1, 40), (2, 30), (3, 10), (4, 20)];

#[test]
fn tempo_of_120_bpm() {
    assert_eq!(bpm_to_us_per_quarter(120), 500_000);
}

#[test]
fn tempo_of_one_bpm_has_no_division_by_zero() {
    assert_eq!(bpm_to_us_per_quarter(1), 60_000_000);
    assert_eq!(bpm_to_us_per_quarter(0), 60_000_000);
}

#[test]
fn one_bar_grid_at_480_ppqn() {
    let cfg = config(7, 120, 1, 480, ScaleKind::Major);
    assert_eq!(total_steps(&cfg), 16);
    assert_eq!(step_ticks(&cfg), 120);
    assert_eq!(total_ticks(&cfg), 1920);
    let seq = generate_sequence(&cfg);
    assert_eq!(seq.total_ticks, 1920);
    assert_eq!(seq.bpm, 120);
    assert_eq!(seq.ticks_per_quarter, 480);
}

#[test]
fn scale_tables() {
    assert_eq!(scale_semitones(ScaleKind::Major), vec![0, 2, 4, 5, 7, 9, 11]);
    assert_eq!(scale_semitones(ScaleKind::NaturalMinor), vec![0, 2, 3, 5, 7, 8, 10]);
    assert_eq!(scale_semitones(ScaleKind::MinorPentatonic), vec![0, 3, 5, 7, 10]);
    assert_eq!(scale_semitones(ScaleKind::MajorPentatonic), vec![0, 2, 4, 7, 9]);
}

#[test]
fn weight_totals() {
    assert_eq!(total_weight(&ANCHOR), 100);
    assert_eq!(total_weight(&LENGTH), 100);
    assert_eq!(total_weight(&[]), 0);
}

#[test]
fn weighted_pick_is_inverse_cdf() {
    let cases = [(0, 0), (29, 0), (30, 1), (44, 1), (45, 2), (74, 2), (75, 3), (89, 3), (90, 4), (99, 4)];
    for (x, v) in cases {
        assert_eq!(pick_weighted(&ANCHOR, x), v, "draw {x}");
    }
    assert_eq!(pick_weighted(&LENGTH, 39), 1);
    assert_eq!(pick_weighted(&LENGTH, 40), 2);
    assert_eq!(pick_weighted(&LENGTH, 79), 3);
    assert_eq!(pick_weighted(&LENGTH, 80), 4);
}

#[test]
fn weighted_pick_past_total_takes_last() {
    assert_eq!(pick_weighted(&LENGTH, 100), 4);
    assert_eq!(pick_weighted(&[(9, 0)], 0), 9);
}

#[test]
fn resting_step_keeps_degree() {
    let cfg = config(1, 120, 1, 480, ScaleKind::Major);
    assert_eq!(note_for_step(&cfg, 3, 4, &rest()), (None, 4));
}

#[test]
fn anchored_step_with_octave_up_and_accent() {
    let cfg = config(1, 120, 1, 480, ScaleKind::MinorPentatonic);
    let d = StepDraws { rest: 80, anchor: 50, motion: 90, turn: 0, octave: 5, length: 75, velocity: 94 };
    let expected = NoteEvent { pitch: 77, start_tick: 480, end_tick: 840, velocity: 112 };
    assert_eq!(note_for_step(&cfg, 4, 2, &d), (Some(expected), 2));
}

#[test]
fn stepwise_motion_is_clamped_to_scale() {
    let cfg = config(1, 120, 1, 480, ScaleKind::Major);
    let down = StepDraws { rest: 55, anchor: 0, motion: 10, turn: 0, octave: 50, length: 0, velocity: 60 };
    let (n, deg) = note_for_step(&cfg, 1, 0, &down);
    assert_eq!(deg, 0);
    assert_eq!(n, Some(NoteEvent { pitch: 60, start_tick: 120, end_tick: 240, velocity: 60 }));
    let up = StepDraws { turn: 2, ..down };
    let (n, deg) = note_for_step(&cfg, 1, 6, &up);
    assert_eq!(deg, 6);
    assert_eq!(n.unwrap().pitch, 71);
    let same = StepDraws { turn: 1, octave: 12, ..down };
    let (n, deg) = note_for_step(&cfg, 2, 3, &same);
    assert_eq!(deg, 3);
    assert_eq!(n.unwrap().pitch, 65 - 12);
}

#[test]
fn pitch_is_clamped_to_midi_range() {
    let mut cfg = config(1, 120, 1, 480, ScaleKind::Major);
    cfg.root_pitch = 127;
    let d = StepDraws { rest: 99, anchor: 99, motion: 99, turn: 0, octave: 0, length: 0, velocity: 94 };
    let (n, deg) = note_for_step(&cfg, 1, 0, &d);
    assert_eq!(deg, 4);
    assert_eq!(n.unwrap().pitch, 127);
    cfg.root_pitch = 0;
    let low = StepDraws { octave: 12, anchor: 0, ..d };
    let (n, _) = note_for_step(&cfg, 1, 0, &low);
    assert_eq!(n.unwrap().pitch, 0);
}

#[test]
fn end_tick_is_clipped_to_total() {
    let cfg = config(1, 120, 1, 480, ScaleKind::Major);
    let d = StepDraws { rest: 70, anchor: 0, motion: 80, turn: 0, octave: 50, length: 90, velocity: 70 };
    let (n, _) = note_for_step(&cfg, 15, 0, &d);
    let n = n.unwrap();
    assert_eq!(n.start_tick, 1800);
    assert_eq!(n.end_tick, 1920);
}

#[test]
fn accent_only_on_downbeats() {
    let cfg = config(1, 120, 1, 480, ScaleKind::Major);
    let d = StepDraws { rest: 70, anchor: 0, motion: 80, turn: 0, octave: 50, length: 0, velocity: 94 };
    assert_eq!(note_for_step(&cfg, 8, 0, &d).0.unwrap().velocity, 112);
    assert_eq!(note_for_step(&cfg, 9, 0, &d).0.unwrap().velocity, 94);
}

#[test]
fn sequence_from_draws_carries_degree_over_rests() {
    let cfg = config(1, 100, 1, 480, ScaleKind::Major);
    let mut draws = vec![rest(); 16];
    draws[0] = StepDraws { rest: 60, anchor: 95, motion: 70, turn: 0, octave: 50, length: 0, velocity: 60 };
    draws[5] = StepDraws { rest: 60, anchor: 0, motion: 10, turn: 2, octave: 50, length: 0, velocity: 60 };
    let seq = sequence_from_draws(&cfg, &draws);
    assert_eq!(
        seq.notes,
        vec![
            NoteEvent { pitch: 67, start_tick: 0, end_tick: 120, velocity: 78 },
            NoteEvent { pitch: 69, start_tick: 600, end_tick: 720, velocity: 60 },
        ]
    );
    assert_eq!(seq.total_ticks, 1920);
}

#[test]
fn same_seed_same_notes() {
    for seed in [0u64, 1, 0xC0FFEE, u64::MAX] {
        let cfg = config(seed, 120, 4, 480, ScaleKind::NaturalMinor);
        let a = generate_sequence(&cfg);
        let b = generate_sequence(&cfg);
        assert_eq!(a.notes, b.notes);
    }
}

#[test]
fn different_seeds_differ() {
    let a = generate_sequence(&config(1, 120, 8, 480, ScaleKind::Major));
    let b = generate_sequence(&config(2, 120, 8, 480, ScaleKind::Major));
    assert_ne!(a.notes, b.notes);
}

#[test]
fn generated_notes_stay_in_bounds() {
    for seed in 0..40u64 {
        for scale in [ScaleKind::Major, ScaleKind::NaturalMinor, ScaleKind::MinorPentatonic, ScaleKind::MajorPentatonic] {
            let mut cfg = config(seed, 90, 2, 96, scale);
            cfg.root_pitch = (seed * 3 % 128) as u8;
            let seq = generate_sequence(&cfg);
            assert!(seq.notes.len() <= 32);
            for n in &seq.notes {
                assert!(n.pitch <= 127);
                assert!(n.velocity >= 55 && n.velocity <= 113);
                assert!(n.start_tick <= n.end_tick && n.end_tick <= seq.total_ticks);
                assert_eq!(n.start_tick % 24, 0);
                let len = n.end_tick - n.start_tick;
                assert!(n.end_tick == seq.total_ticks || (len >= 24 && len <= 96 && len % 24 == 0));
            }
            for w in seq.notes.windows(2) {
                assert!(w[0].start_tick < w[1].start_tick);
            }
        }
    }
}

#[test]
fn tiny_resolution_gives_zero_length_steps() {
    let cfg = config(5, 120, 1, 3, ScaleKind::Major);
    let seq = generate_sequence(&cfg);
    assert_eq!(seq.total_ticks, 0);
    for n in &seq.notes {
        assert_eq!((n.start_tick, n.end_tick), (0, 0));
    }
}

#[test]
fn config_errors() {
    let good = config(1, 120, 16, 480, ScaleKind::Major);
    assert_eq!(good.check(), Ok(()));
    assert_eq!(Config { bpm: 0, ..good }.check(), Err(ConfigError::ZeroBpm));
    assert_eq!(Config { bars: 0, ..good }.check(), Err(ConfigError::ZeroBars));
    assert_eq!(Config { ticks_per_quarter: 0, ..good }.check(), Err(ConfigError::ZeroResolution));
    assert_eq!(Config { root_pitch: 128, ..good }.check(), Err(ConfigError::RootOutOfRange));
    assert_eq!(Config { channel: 16, ..good }.check(), Err(ConfigError::ChannelOutOfRange));
    assert_eq!(Config { program: 128, ..good }.check(), Err(ConfigError::ProgramOutOfRange));
    assert_eq!(Config { bars: u32::MAX, ..good }.check(), Err(ConfigError::TooLong));
    assert_eq!(Config { bars: 0, bpm: 0, ..good }.check(), Err(ConfigError::ZeroBpm));
    assert_eq!(Config { bars: u32::MAX / 16, ticks_per_quarter: 4, ..good }.check(), Ok(()));
}

#[test]
fn notes_ignore_tempo_channel_and_program() {
    let a = config(0xC0FFEE, 120, 4, 480, ScaleKind::MinorPentatonic);
    let b = Config { bpm: 61, channel: 9, program: 40, ..a };
    let sa = generate_sequence(&a);
    let sb = generate_sequence(&b);
    assert!(!sa.notes.is_empty());
    assert_eq!(sa.notes, sb.notes);
    assert_eq!(sa.total_ticks, sb.total_ticks);
    assert_eq!(sb.bpm, 61);
}

#[test]
fn seed_changes_the_draws() {
    let a = generate_sequence(&config(10, 120, 4, 480, ScaleKind::Major));
    let b = generate_sequence(&config(11, 120, 4, 480, ScaleKind::Major));
    let again = generate_sequence(&config(10, 120, 4, 480, ScaleKind::Major));
    assert_ne!(a.notes, b.notes);
    assert_eq!(a.notes, again.notes);
}
