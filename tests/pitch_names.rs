use midi_seed_gen::pitch::{pitch_class_and_octave, pitch_class_name, Note, NoteError};

#[test]
fn parses_plain_sharp_and_flat_names() {
    assert_eq!(Note::parse("C4"), Ok(Note(60)));
    assert_eq!(Note::parse("A3"), Ok(Note(57)));
    assert_eq!(Note::parse("F#5"), Ok(Note(78)));
    assert_eq!(Note::parse("Db2"), Ok(Note(37)));
    assert_eq!(Note::parse("c4").unwrap().as_u8(), 60);
    assert_eq!(Note::parse("BB3"), Ok(Note(58)));
    assert_eq!(Note::parse("G\u{266f}4"), Ok(Note(68)));
    assert_eq!(Note::parse("E\u{266d}4"), Ok(Note(63)));
}

#[test]
fn white_space_and_signs_in_octave() {
    assert_eq!(Note::parse("  C4\t"), Ok(Note(60)));
    assert_eq!(Note::parse("C# 4"), Ok(Note(61)));
    assert_eq!(Note::parse("C-1"), Ok(Note(0)));
    assert_eq!(Note::parse("C+4"), Ok(Note(60)));
    assert_eq!(Note::parse("G9"), Ok(Note(127)));
    assert_eq!(Note::parse("\u{3000}D4\u{a0}"), Ok(Note(62)));
    assert_eq!("C4".parse::<Note>(), Ok(Note(60)));
}

#[test]
fn rejects_bad_names() {
    assert_eq!(Note::parse(""), Err(NoteError::Empty));
    assert_eq!(Note::parse("   "), Err(NoteError::Empty));
    assert_eq!(Note::parse("H4"), Err(NoteError::BadLetter('H')));
    assert_eq!(Note::parse("C"), Err(NoteError::MissingOctave));
    assert_eq!(Note::parse("C# "), Err(NoteError::MissingOctave));
    assert_eq!(Note::parse("Cx"), Err(NoteError::BadOctave));
    assert_eq!(Note::parse("C-"), Err(NoteError::BadOctave));
    assert_eq!(Note::parse("C4.5"), Err(NoteError::BadOctave));
    assert_eq!(Note::parse("C99999999999"), Err(NoteError::BadOctave));
    assert_eq!(Note::parse("G#9"), Err(NoteError::OutOfRange(128)));
    assert_eq!(Note::parse("Cb-1"), Err(NoteError::OutOfRange(-1)));
    assert_eq!(Note::parse("C2147483647"), Err(NoteError::OutOfRange(25769803776)));
    assert_eq!(Note::parse("C-2147483648"), Err(NoteError::OutOfRange(-25769803764)));
}

#[test]
fn class_and_octave_of_numbers() {
    assert_eq!(pitch_class_and_octave(60), (0, 4));
    assert_eq!(pitch_class_and_octave(0), (0, -1));
    assert_eq!(pitch_class_and_octave(127), (7, 9));
    assert_eq!(pitch_class_and_octave(61), (1, 4));
}

#[test]
fn class_names_round_trip_through_parse() {
    let names: Vec<&str> = (0..12u8).map(pitch_class_name).collect();
    assert_eq!(names, vec!["C", "C#", "D", "D#", "E", "F", "F#", "G", "G#", "A", "A#", "B"]);
    for pitch in 0..=127u8 {
        let (class, octave) = pitch_class_and_octave(pitch);
        let name = format!("{}{}", pitch_class_name(class), octave);
        assert_eq!(name.parse::<Note>(), Ok(Note(pitch)), "{name}");
    }
}
