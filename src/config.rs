use vstd::prelude::*;

verus! {

/// Microseconds in one minute.
pub const MICROS_PER_MINUTE: u32 = 60_000_000;

/// Grid steps in one 4/4 bar: one step per sixteenth note.
pub const STEPS_PER_BAR: u32 = 16;

/// Largest value of a 7-bit MIDI data byte (pitch, velocity, program).
pub const MIDI_DATA_MAX: u8 = 127;

/// Largest MIDI channel number.
pub const CHANNEL_MAX: u8 = 15;

/// The tempo value in microseconds per quarter note; a tempo of zero is
/// treated as one beat per minute.
pub open spec fn us_per_quarter(bpm: u32) -> nat {
    if bpm == 0 {
        MICROS_PER_MINUTE as nat
    } else {
        MICROS_PER_MINUTE as nat / bpm as nat
    }
}

/// Converts a tempo in beats per minute to microseconds per quarter note.
pub fn bpm_to_us_per_quarter(bpm: u32) -> (r: u32)
    ensures
        r == us_per_quarter(bpm),
{
    let b: u32 = if bpm < 1 { 1 } else { bpm };
    MICROS_PER_MINUTE / b
}

/// The scales a melody can be drawn from.
#[derive(Clone, Copy, Debug, PartialEq, Eq, Structural)]
pub enum ScaleKind {
    Major,
    NaturalMinor,
    MinorPentatonic,
    MajorPentatonic,
}

/// Semitone offsets from the root for each degree of a scale.
pub open spec fn scale_table(s: ScaleKind) -> Seq<i8> {
    match s {
        ScaleKind::Major => seq![0i8, 2, 4, 5, 7, 9, 11],
        ScaleKind::NaturalMinor => seq![0i8, 2, 3, 5, 7, 8, 10],
        ScaleKind::MinorPentatonic => seq![0i8, 3, 5, 7, 10],
        ScaleKind::MajorPentatonic => seq![0i8, 2, 4, 7, 9],
    }
}

/// Every scale has between five and seven degrees, each offset inside one octave.
pub proof fn lemma_scale_table_shape(s: ScaleKind)
    ensures
        5 <= scale_table(s).len() <= 7,
        forall|i: int| 0 <= i < scale_table(s).len() ==> 0 <= #[trigger] scale_table(s)[i] < 12,
{
}

/// The semitone offsets of a scale, one per degree, in ascending order.
pub fn scale_semitones(s: ScaleKind) -> (r: Vec<i8>)
    ensures
        r@ == scale_table(s),
{
    let r = match s {
        ScaleKind::Major => vec![0i8, 2, 4, 5, 7, 9, 11],
        ScaleKind::NaturalMinor => vec![0i8, 2, 3, 5, 7, 8, 10],
        ScaleKind::MinorPentatonic => vec![0i8, 3, 5, 7, 10],
        ScaleKind::MajorPentatonic => vec![0i8, 2, 4, 7, 9],
    };
    assert(r@ =~= scale_table(s));
    r
}

/// Parameters of one generation run.
#[derive(Clone, Copy, Debug, PartialEq, Eq, Structural)]
pub struct Config {
    pub seed: u64,
    pub bpm: u32,
    pub bars: u32,
    pub ticks_per_quarter: u16,
    pub root_pitch: u8,
    pub scale: ScaleKind,
    pub channel: u8,
    pub program: u8,
}

/// Why a set of parameters was refused.
#[derive(Clone, Copy, Debug, PartialEq, Eq, Structural)]
pub enum ConfigError {
    ZeroBpm,
    ZeroBars,
    ZeroResolution,
    RootOutOfRange,
    ChannelOutOfRange,
    ProgramOutOfRange,
    TooLong,
}

impl Config {
    /// Number of grid steps in the whole sequence.
    pub open spec fn total_steps(self) -> nat {
        self.bars as nat * STEPS_PER_BAR as nat
    }

    /// Length of one grid step in ticks (a sixteenth note).
    pub open spec fn step_ticks(self) -> nat {
        self.ticks_per_quarter as nat / 4
    }

    /// Length of the whole sequence in ticks.
    pub open spec fn total_ticks(self) -> nat {
        self.total_steps() * self.step_ticks()
    }

    /// The parameter ranges the generator is defined on.
    pub open spec fn valid(self) -> bool {
        &&& self.bpm >= 1
        &&& self.bars >= 1
        &&& self.ticks_per_quarter > 0
        &&& self.root_pitch <= MIDI_DATA_MAX
        &&& self.channel <= CHANNEL_MAX
        &&& self.program <= MIDI_DATA_MAX
    }

    /// The step count and the tick count fit in 32 bits.
    pub open spec fn fits(self) -> bool {
        &&& self.total_steps() <= u32::MAX
        &&& self.total_ticks() <= u32::MAX
    }

    /// Checks the parameters in a fixed order and reports the first
    /// one that is out of range.
    pub fn check(&self) -> (r: Result<(), ConfigError>)
        ensures
            r is Ok <==> self.valid() && self.fits(),
            r == Err::<(), ConfigError>(ConfigError::ZeroBpm) <==> self.bpm == 0,
            r == Err::<(), ConfigError>(ConfigError::ZeroBars) <==> self.bpm != 0 && self.bars == 0,
            r == Err::<(), ConfigError>(ConfigError::ZeroResolution) <==> self.bpm != 0 && self.bars != 0
                && self.ticks_per_quarter == 0,
            r == Err::<(), ConfigError>(ConfigError::RootOutOfRange) <==> self.bpm != 0 && self.bars != 0
                && self.ticks_per_quarter != 0 && self.root_pitch > MIDI_DATA_MAX,
            r == Err::<(), ConfigError>(ConfigError::ChannelOutOfRange) <==> self.bpm != 0 && self.bars
                != 0 && self.ticks_per_quarter != 0 && self.root_pitch <= MIDI_DATA_MAX && self.channel
                > CHANNEL_MAX,
            r == Err::<(), ConfigError>(ConfigError::ProgramOutOfRange) <==> self.bpm != 0 && self.bars
                != 0 && self.ticks_per_quarter != 0 && self.root_pitch <= MIDI_DATA_MAX && self.channel
                <= CHANNEL_MAX && self.program > MIDI_DATA_MAX,
            r == Err::<(), ConfigError>(ConfigError::TooLong) <==> self.valid() && !self.fits(),
    {
        if self.bpm == 0 {
            return Err(ConfigError::ZeroBpm);
        }
        if self.bars == 0 {
            return Err(ConfigError::ZeroBars);
        }
        if self.ticks_per_quarter == 0 {
            return Err(ConfigError::ZeroResolution);
        }
        if self.root_pitch > MIDI_DATA_MAX {
            return Err(ConfigError::RootOutOfRange);
        }
        if self.channel > CHANNEL_MAX {
            return Err(ConfigError::ChannelOutOfRange);
        }
        if self.program > MIDI_DATA_MAX {
            return Err(ConfigError::ProgramOutOfRange);
        }
        assert(self.bars as u64 * 16 <= 0x10_0000_0000) by (nonlinear_arith)
            requires
                self.bars <= u32::MAX,
        ;
        let steps: u64 = self.bars as u64 * STEPS_PER_BAR as u64;
        let per_step: u64 = self.ticks_per_quarter as u64 / 4;
        assert(steps * per_step <= 0x10_0000_0000 * 0x4000) by (nonlinear_arith)
            requires
                steps <= 0x10_0000_0000,
                per_step <= 0x4000,
        ;
        let ticks: u64 = steps * per_step;
        if steps > u32::MAX as u64 || ticks > u32::MAX as u64 {
            return Err(ConfigError::TooLong);
        }
        Ok(())
    }
}

} // verus!
