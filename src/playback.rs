use crate::config::{bpm_to_us_per_quarter, us_per_quarter, Config, CHANNEL_MAX};
use crate::generator::{generate_sequence, seeded_step_draws, sequence_of, NoteEvent, Sequence};
use vstd::prelude::*;

verus! {

/// Milliseconds the replay loop waits between polls while stopped.
pub const IDLE_POLL_MILLIS: u32 = 50;

/// Status nibble of Note Off, shifted into the high half of the status byte.
pub const NOTE_OFF_STATUS: u8 = 0x80;

/// Status nibble of Note On, shifted into the high half of the status byte.
pub const NOTE_ON_STATUS: u8 = 0x90;

/// A three-byte channel voice message for a real-time sink.
#[derive(Clone, Copy, Debug, PartialEq, Eq, Structural)]
pub struct ChannelMessage {
    pub status: u8,
    pub key: u8,
    pub velocity: u8,
}

/// Whether the replay runs, and the tick it plays next.
#[derive(Clone, Copy, Debug, PartialEq, Eq, Structural)]
pub struct PlaybackState {
    pub playing: bool,
    pub current_tick: u32,
}

/// The tick after `tick`, wrapping to zero at the end of the sequence.
pub open spec fn following_tick(tick: u32, total_ticks: u32) -> u32 {
    if tick as int + 1 >= total_ticks {
        0
    } else {
        (tick + 1) as u32
    }
}

pub open spec fn note_off_message(channel: u8, n: NoteEvent) -> ChannelMessage {
    ChannelMessage { status: (NOTE_OFF_STATUS + channel) as u8, key: n.pitch, velocity: 0 }
}

pub open spec fn note_on_message(channel: u8, n: NoteEvent) -> ChannelMessage {
    ChannelMessage { status: (NOTE_ON_STATUS + channel) as u8, key: n.pitch, velocity: n.velocity }
}

/// Note-offs of the notes that end at `tick`, in note order.
pub open spec fn offs_at(notes: Seq<NoteEvent>, channel: u8, tick: u32) -> Seq<ChannelMessage>
    decreases notes.len(),
{
    if notes.len() == 0 {
        Seq::empty()
    } else {
        let rest = offs_at(notes.drop_last(), channel, tick);
        if notes.last().end_tick == tick {
            rest.push(note_off_message(channel, notes.last()))
        } else {
            rest
        }
    }
}

/// Note-ons of the notes that start at `tick`, in note order.
pub open spec fn ons_at(notes: Seq<NoteEvent>, channel: u8, tick: u32) -> Seq<ChannelMessage>
    decreases notes.len(),
{
    if notes.len() == 0 {
        Seq::empty()
    } else {
        let rest = ons_at(notes.drop_last(), channel, tick);
        if notes.last().start_tick == tick {
            rest.push(note_on_message(channel, notes.last()))
        } else {
            rest
        }
    }
}

/// What is sent at `tick`: every note-off, then every note-on.
pub open spec fn messages_at_tick(notes: Seq<NoteEvent>, channel: u8, tick: u32) -> Seq<ChannelMessage> {
    offs_at(notes, channel, tick) + ons_at(notes, channel, tick)
}

proof fn lemma_statuses(notes: Seq<NoteEvent>, channel: u8, tick: u32)
    requires
        channel <= CHANNEL_MAX,
    ensures
        forall|i: int|
            0 <= i < offs_at(notes, channel, tick).len() ==> (#[trigger] offs_at(notes, channel, tick)[i]).status
                == NOTE_OFF_STATUS + channel,
        forall|i: int|
            0 <= i < ons_at(notes, channel, tick).len() ==> (#[trigger] ons_at(notes, channel, tick)[i]).status
                == NOTE_ON_STATUS + channel,
    decreases notes.len(),
{
    if notes.len() > 0 {
        lemma_statuses(notes.drop_last(), channel, tick);
        let offs = offs_at(notes, channel, tick);
        let ons = ons_at(notes, channel, tick);
        let prev_offs = offs_at(notes.drop_last(), channel, tick);
        let prev_ons = ons_at(notes.drop_last(), channel, tick);
        assert forall|i: int| 0 <= i < offs.len() implies (#[trigger] offs[i]).status == NOTE_OFF_STATUS
            + channel by {
            if i < prev_offs.len() {
                assert(offs[i] == prev_offs[i]);
            }
        }
        assert forall|i: int| 0 <= i < ons.len() implies (#[trigger] ons[i]).status == NOTE_ON_STATUS
            + channel by {
            if i < prev_ons.len() {
                assert(ons[i] == prev_ons[i]);
            }
        }
    }
}

/// At any tick every note-off is sent before every note-on.
pub proof fn lemma_offs_before_ons(notes: Seq<NoteEvent>, channel: u8, tick: u32)
    requires
        channel <= CHANNEL_MAX,
    ensures
        forall|i: int, j: int|
            0 <= i < j < messages_at_tick(notes, channel, tick).len() && (#[trigger] messages_at_tick(
                notes,
                channel,
                tick,
            )[i]).status == NOTE_ON_STATUS + channel ==> (#[trigger] messages_at_tick(notes, channel, tick)[j]).status
                == NOTE_ON_STATUS + channel,
{
    lemma_statuses(notes, channel, tick);
    let offs = offs_at(notes, channel, tick);
    let m = messages_at_tick(notes, channel, tick);
    assert forall|i: int, j: int|
        0 <= i < j < m.len() && (#[trigger] m[i]).status == NOTE_ON_STATUS + channel implies (
        #[trigger] m[j]).status == NOTE_ON_STATUS + channel by {
        if i < offs.len() {
            assert(m[i] == offs[i]);
        }
        assert(j >= offs.len());
        assert(m[j] == ons_at(notes, channel, tick)[j - offs.len()]);
    }
}

/// The messages to send at `tick`: note-offs of the notes ending there,
/// then note-ons of the notes starting there.
pub fn messages_at(notes: &Vec<NoteEvent>, channel: u8, tick: u32) -> (r: Vec<ChannelMessage>)
    requires
        channel <= CHANNEL_MAX,
    ensures
        r@ == messages_at_tick(notes@, channel, tick),
{
    let mut offs: Vec<ChannelMessage> = Vec::new();
    let mut ons: Vec<ChannelMessage> = Vec::new();
    let mut i: usize = 0;
    while i < notes.len()
        invariant
            i <= notes@.len(),
            channel <= CHANNEL_MAX,
            offs@ == offs_at(notes@.subrange(0, i as int), channel, tick),
            ons@ == ons_at(notes@.subrange(0, i as int), channel, tick),
        decreases notes.len() - i,
    {
        proof {
            assert(notes@.subrange(0, i + 1).drop_last() =~= notes@.subrange(0, i as int));
        }
        let n = notes[i];
        if n.end_tick == tick {
            offs.push(ChannelMessage { status: NOTE_OFF_STATUS + channel, key: n.pitch, velocity: 0 });
        }
        if n.start_tick == tick {
            ons.push(ChannelMessage { status: NOTE_ON_STATUS + channel, key: n.pitch, velocity: n.velocity });
        }
        i = i + 1;
    }
    assert(notes@.subrange(0, i as int) =~= notes@);
    offs.append(&mut ons);
    offs
}

/// Real-time length of one tick in whole microseconds.
pub fn tick_micros(bpm: u32, ticks_per_quarter: u16) -> (r: u32)
    requires
        ticks_per_quarter > 0,
    ensures
        r == us_per_quarter(bpm) / ticks_per_quarter as nat,
{
    bpm_to_us_per_quarter(bpm) / ticks_per_quarter as u32
}

impl PlaybackState {
    /// Stopped at the first tick.
    pub fn new() -> (r: PlaybackState)
        ensures
            !r.playing,
            r.current_tick == 0,
    {
        PlaybackState { playing: false, current_tick: 0 }
    }

    /// The play/stop control: flips `playing`; starting rewinds to tick zero.
    pub fn toggle(&mut self)
        ensures
            final(self).playing == !old(self).playing,
            final(self).current_tick == if final(self).playing {
                0
            } else {
                old(self).current_tick
            },
    {
        self.playing = !self.playing;
        if self.playing {
            self.current_tick = 0;
        }
    }

    /// Stops and rewinds to tick zero.
    pub fn stop(&mut self)
        ensures
            !final(self).playing,
            final(self).current_tick == 0,
    {
        self.playing = false;
        self.current_tick = 0;
    }

    /// Moves to the next tick, wrapping to zero at `total_ticks`.
    pub fn advance(&mut self, total_ticks: u32)
        ensures
            final(self).playing == old(self).playing,
            final(self).current_tick == following_tick(old(self).current_tick, total_ticks),
    {
        if self.current_tick as u64 + 1 >= total_ticks as u64 {
            self.current_tick = 0;
        } else {
            self.current_tick = self.current_tick + 1;
        }
    }
}

/// What the replay loop does next.
#[derive(Clone, Debug)]
pub enum PlaybackAction {
    /// Stopped: wait, then poll again.
    Idle { wait_millis: u32 },
    /// Send the messages in order, then wait one tick.
    Play { messages: Vec<ChannelMessage>, wait_micros: u32 },
}

/// A replay session: the parameters, the sequence being played (replaced
/// whole on regeneration, never changed in place) and the transport state.
pub struct Player {
    pub config: Config,
    pub sequence: Sequence,
    pub state: PlaybackState,
}

impl Player {
    pub open spec fn wf(&self) -> bool {
        &&& self.config.valid()
        &&& self.config.fits()
        &&& sequence_of(self.config, seeded_step_draws(self.config), self.sequence)
    }

    /// A stopped session on the sequence generated for `config`.
    pub fn new(config: Config) -> (r: Player)
        requires
            config.valid(),
            config.fits(),
        ensures
            r.wf(),
            r.config == config,
            sequence_of(config, seeded_step_draws(config), r.sequence),
            !r.state.playing,
            r.state.current_tick == 0,
    {
        let sequence = generate_sequence(&config);
        Player { config, sequence, state: PlaybackState::new() }
    }

    /// Replaces the sequence with the one generated for `seed` (a fresh
    /// snapshot; the old one is never changed), and stops and rewinds.
    pub fn regenerate(&mut self, seed: u64)
        requires
            old(self).wf(),
        ensures
            final(self).wf(),
            final(self).config == (Config { seed, ..old(self).config }),
            sequence_of(final(self).config, seeded_step_draws(final(self).config), final(self).sequence),
            !final(self).state.playing,
            final(self).state.current_tick == 0,
    {
        let config = Config { seed, ..self.config };
        let sequence = generate_sequence(&config);
        self.sequence = sequence;
        self.config = config;
        self.state.stop();
    }

    /// The play/stop control.
    pub fn toggle(&mut self)
        ensures
            final(self).config == old(self).config,
            final(self).sequence == old(self).sequence,
            final(self).state.playing == !old(self).state.playing,
            final(self).state.current_tick == if final(self).state.playing {
                0
            } else {
                old(self).state.current_tick
            },
    {
        self.state.toggle();
    }

    /// One turn of the replay loop. Stopped: nothing changes and the loop
    /// idles. Playing: the messages of the current tick are handed out, the
    /// tick advances (wrapping at the end), and the loop waits one tick.
    pub fn step(&mut self) -> (r: PlaybackAction)
        requires
            old(self).wf(),
        ensures
            final(self).config == old(self).config,
            final(self).sequence == old(self).sequence,
            final(self).state.playing == old(self).state.playing,
            !old(self).state.playing ==> final(self).state == old(self).state && r == (PlaybackAction::Idle {
                wait_millis: IDLE_POLL_MILLIS,
            }),
            old(self).state.playing ==> final(self).state.current_tick == following_tick(
                old(self).state.current_tick,
                old(self).sequence.total_ticks,
            ) && match r {
                PlaybackAction::Play { messages, wait_micros } => {
                    &&& messages@ == messages_at_tick(
                        old(self).sequence.notes@,
                        old(self).config.channel,
                        old(self).state.current_tick,
                    )
                    &&& wait_micros == us_per_quarter(old(self).sequence.bpm)
                        / old(self).sequence.ticks_per_quarter as nat
                },
                PlaybackAction::Idle { .. } => false,
            },
    {
        if !self.state.playing {
            return PlaybackAction::Idle { wait_millis: IDLE_POLL_MILLIS };
        }
        let messages = messages_at(&self.sequence.notes, self.config.channel, self.state.current_tick);
        self.state.advance(self.sequence.total_ticks);
        let wait_micros = tick_micros(self.sequence.bpm, self.sequence.ticks_per_quarter);
        PlaybackAction::Play { messages, wait_micros }
    }
}

} // verus!
