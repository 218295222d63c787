use midi_seed_gen::config::{Config, ScaleKind};
use midi_seed_gen::encoder::{
    collect_events, delta_encode, encode_track, event_order_key, sort_events, TimedEvent, TrackEvent,
};
use midi_seed_gen::generator::{generate_sequence, NoteEvent, Sequence};

fn at(tick: u32, event: TrackEvent) -> TimedEvent {
    TimedEvent { tick, event }
}

fn on(key: u8, velocity: u8) -> TrackEvent {
    TrackEvent::NoteOn { channel: 2, key, velocity }
}

fn off(key: u8) -> TrackEvent {
    TrackEvent::NoteOff { channel: 2, key }
}

fn note(pitch: u8, start_tick: u32, end_tick: u32) -> NoteEvent {
    NoteEvent { pitch, start_tick, end_tick, velocity: 100 }
}

fn sequence(notes: Vec<NoteEvent>) -> Sequence {
    Sequence { notes, bpm: 120, ticks_per_quarter: 480, total_ticks: 1920 }
}

fn generated(seed: u64) -> Sequence {
    let cfg = Config {
        seed,
        bpm: 120,
        bars: 4,
        ticks_per_quarter: 480,
        root_pitch: 60,
        scale: ScaleKind::MinorPentatonic,
        channel: 3,
        program: 5,
    };
    generate_sequence(&cfg)
}

fn absolute(stream: &[TimedEvent]) -> Vec<u32> {
    let mut t = 0u32;
    stream.iter().map(|e| { t += e.tick; t }).collect()
}

#[test]
fn ranks_of_events() {
    assert_eq!(event_order_key(&off(1)), 0);
    assert_eq!(event_order_key(&on(1, 1)), 1);
    assert_eq!(event_order_key(&TrackEvent::ProgramChange { channel: 0, program: 0 }), 2);
    assert_eq!(event_order_key(&TrackEvent::Tempo(1)), 3);
    assert_eq!(event_order_key(&TrackEvent::EndOfTrack), 3);
}

#[test]
fn empty_sequence_stream() {
    let s = encode_track(&sequence(vec![]), 2, 7);
    assert_eq!(
        s,
        vec![
            at(0, TrackEvent::ProgramChange { channel: 2, program: 7 }),
            at(0, TrackEvent::Tempo(500_000)),
            at(0, TrackEvent::EndOfTrack),
        ]
    );
}

#[test]
fn one_bar_stream_frame() {
    let cfg = Config {
        seed: 11,
        bpm: 120,
        bars: 1,
        ticks_per_quarter: 480,
        root_pitch: 60,
        scale: ScaleKind::Major,
        channel: 0,
        program: 0,
    };
    let seq = generate_sequence(&cfg);
    let s = encode_track(&seq, 0, 0);
    let tempo = s.iter().position(|e| e.event == TrackEvent::Tempo(500_000)).unwrap();
    let program = s.iter().position(|e| matches!(e.event, TrackEvent::ProgramChange { .. })).unwrap();
    assert!(s[..=tempo].iter().all(|e| e.tick == 0));
    assert_eq!(s[program].tick, 0);
    assert_eq!(tempo, program + 1);
    assert_eq!(*s.last().unwrap(), at(0, TrackEvent::EndOfTrack));
}

#[test]
fn collected_events_in_note_order() {
    let seq = sequence(vec![note(60, 0, 240), note(62, 120, 360)]);
    let ev = collect_events(&seq, 2, 9);
    assert_eq!(
        ev,
        vec![
            at(0, TrackEvent::Tempo(500_000)),
            at(0, TrackEvent::ProgramChange { channel: 2, program: 9 }),
            at(0, on(60, 100)),
            at(240, off(60)),
            at(120, on(62, 100)),
            at(360, off(62)),
        ]
    );
}

#[test]
fn sort_is_stable_and_puts_offs_first() {
    let input = vec![
        at(5, on(1, 1)),
        at(5, off(2)),
        at(3, off(3)),
        at(5, off(4)),
        at(0, TrackEvent::Tempo(9)),
        at(0, on(5, 1)),
    ];
    assert_eq!(
        sort_events(&input),
        vec![
            at(0, on(5, 1)),
            at(0, TrackEvent::Tempo(9)),
            at(3, off(3)),
            at(5, off(2)),
            at(5, off(4)),
            at(5, on(1, 1)),
        ]
    );
}

#[test]
fn deltas_floor_at_zero() {
    let input = vec![at(10, off(1)), at(25, off(2)), at(20, off(3)), at(20, off(4))];
    assert_eq!(
        delta_encode(&input),
        vec![at(10, off(1)), at(15, off(2)), at(0, off(3)), at(0, off(4))]
    );
}

#[test]
fn note_ending_where_next_starts() {
    let seq = sequence(vec![note(64, 0, 120), note(64, 120, 240)]);
    let s = encode_track(&seq, 2, 0);
    assert_eq!(
        s,
        vec![
            at(0, on(64, 100)),
            at(0, TrackEvent::ProgramChange { channel: 2, program: 0 }),
            at(0, TrackEvent::Tempo(500_000)),
            at(120, off(64)),
            at(0, on(64, 100)),
            at(120, off(64)),
            at(0, TrackEvent::EndOfTrack),
        ]
    );
}

#[test]
fn stream_count_and_terminal_event() {
    for seed in 0..20u64 {
        let seq = generated(seed);
        let s = encode_track(&seq, 3, 5);
        assert_eq!(s.len(), 2 + 2 * seq.notes.len() + 1);
        assert_eq!(*s.last().unwrap(), at(0, TrackEvent::EndOfTrack));
        assert_eq!(s.iter().filter(|e| e.event == TrackEvent::EndOfTrack).count(), 1);
    }
}

#[test]
fn stream_ticks_never_decrease_and_offs_precede_ons() {
    for seed in 0..20u64 {
        let seq = generated(seed);
        let s = encode_track(&seq, 3, 5);
        let abs = absolute(&s);
        for i in 1..s.len() {
            assert!(abs[i - 1] <= abs[i]);
            if abs[i - 1] == abs[i] {
                assert!(event_order_key(&s[i - 1].event) <= event_order_key(&s[i].event) || s[i].event == TrackEvent::EndOfTrack);
            }
        }
        let last_end = seq.notes.iter().map(|n| n.end_tick).max().unwrap_or(0);
        assert_eq!(*abs.last().unwrap(), last_end);
    }
}

#[test]
fn encoding_twice_is_identical() {
    let seq = generated(0xC0FFEE);
    assert_eq!(encode_track(&seq, 3, 5), encode_track(&seq, 3, 5));
    let again = generated(0xC0FFEE);
    assert_eq!(encode_track(&seq, 3, 5), encode_track(&again, 3, 5));
}
