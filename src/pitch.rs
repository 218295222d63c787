use vstd::prelude::*;
use vstd::std_specs::iter::IteratorSpec;

verus! {

broadcast use {vstd::string::axiom_spec_iter, vstd::string::next_postcondition};

/// A MIDI note number in 0..=127, written in scientific pitch notation
/// (`C4` is 60).
#[derive(Clone, Copy, Debug, PartialEq, Eq, Structural)]
pub struct Note(pub u8);

/// Why a pitch name was refused.
#[derive(Clone, Copy, Debug, PartialEq, Eq, Structural)]
pub enum NoteError {
    Empty,
    BadLetter(char),
    MissingOctave,
    BadOctave,
    OutOfRange(i64),
}

/// The Unicode `White_Space` characters.
pub open spec fn is_white_space(c: char) -> bool {
    let u = c as u32;
    ||| 0x09 <= u <= 0x0d
    ||| u == 0x20
    ||| u == 0x85
    ||| u == 0xa0
    ||| u == 0x1680
    ||| 0x2000 <= u <= 0x200a
    ||| u == 0x2028
    ||| u == 0x2029
    ||| u == 0x202f
    ||| u == 0x205f
    ||| u == 0x3000
}

pub open spec fn trim_start(s: Seq<char>) -> Seq<char>
    decreases s.len(),
{
    if s.len() > 0 && is_white_space(s[0]) {
        trim_start(s.drop_first())
    } else {
        s
    }
}

pub open spec fn trim_end(s: Seq<char>) -> Seq<char>
    decreases s.len(),
{
    if s.len() > 0 && is_white_space(s.last()) {
        trim_end(s.drop_last())
    } else {
        s
    }
}

/// `s` without leading and trailing white space.
pub open spec fn trim(s: Seq<char>) -> Seq<char> {
    trim_end(trim_start(s))
}

/// Pitch class of a note letter, in either case.
pub open spec fn letter_class(c: char) -> Option<int> {
    if c == 'C' || c == 'c' {
        Some(0)
    } else if c == 'D' || c == 'd' {
        Some(2)
    } else if c == 'E' || c == 'e' {
        Some(4)
    } else if c == 'F' || c == 'f' {
        Some(5)
    } else if c == 'G' || c == 'g' {
        Some(7)
    } else if c == 'A' || c == 'a' {
        Some(9)
    } else if c == 'B' || c == 'b' {
        Some(11)
    } else {
        None
    }
}

pub open spec fn is_sharp(c: char) -> bool {
    c == '#' || c == '\u{266f}'
}

pub open spec fn is_flat(c: char) -> bool {
    c == 'b' || c == 'B' || c == '\u{266d}'
}

pub open spec fn is_digit(c: char) -> bool {
    '0' <= c && c <= '9'
}

/// Value of a run of decimal digits.
pub open spec fn digits_value(s: Seq<char>) -> nat
    decreases s.len(),
{
    if s.len() == 0 {
        0
    } else {
        digits_value(s.drop_last()) * 10 + (s.last() as nat - '0' as nat) as nat
    }
}

pub open spec fn all_digits(s: Seq<char>) -> bool {
    forall|i: int| 0 <= i < s.len() ==> is_digit(#[trigger] s[i])
}

pub open spec fn has_sign(s: Seq<char>) -> bool {
    s.len() > 0 && (s[0] == '+' || s[0] == '-')
}

/// The digits after an optional sign.
pub open spec fn unsigned_part(s: Seq<char>) -> Seq<char> {
    if has_sign(s) {
        s.drop_first()
    } else {
        s
    }
}

/// A decimal `i32`: an optional sign, then one or more digits, the value in range.
pub open spec fn int_text(s: Seq<char>) -> Option<i32> {
    let body = unsigned_part(s);
    let v = if has_sign(s) && s[0] == '-' {
        -digits_value(body)
    } else {
        digits_value(body) as int
    };
    if body.len() == 0 || !all_digits(body) {
        None
    } else if i32::MIN <= v <= i32::MAX {
        Some(v as i32)
    } else {
        None
    }
}

/// The note named by already trimmed text: a letter, an optional sharp or
/// flat, then a signed octave number (white space around it is ignored).
pub open spec fn note_of_text(t: Seq<char>) -> Result<u8, NoteError> {
    if t.len() == 0 {
        Err(NoteError::Empty)
    } else {
        match letter_class(t[0]) {
            None => Err(NoteError::BadLetter(t[0])),
            Some(base) => {
                let shift = if t.len() > 1 && is_sharp(t[1]) {
                    1int
                } else if t.len() > 1 && is_flat(t[1]) {
                    -1int
                } else {
                    0int
                };
                let tail = if shift != 0 {
                    t.subrange(2, t.len() as int)
                } else {
                    t.drop_first()
                };
                let o = trim(tail);
                if o.len() == 0 {
                    Err(NoteError::MissingOctave)
                } else {
                    match int_text(o) {
                        None => Err(NoteError::BadOctave),
                        Some(octave) => {
                            let midi = (octave + 1) * 12 + base + shift;
                            if 0 <= midi <= 127 {
                                Ok(midi as u8)
                            } else {
                                Err(NoteError::OutOfRange(midi as i64))
                            }
                        },
                    }
                }
            },
        }
    }
}

/// The characters of `s`, in order.
fn chars_of(s: &str) -> (r: Vec<char>)
    ensures
        r@ == s@,
{
    let mut r: Vec<char> = Vec::new();
    let mut it = s.chars();
    loop
        invariant
            r@ + it.remaining() == s@,
            it.obeys_prophetic_iter_laws(),
            it.decrease() is Some,
        decreases it.decrease()->0,
    {
        match it.next() {
            Some(c) => {
                r.push(c);
                assert(r@ + it.remaining() =~= s@);
            },
            None => {
                assert(r@ =~= s@);
                return r;
            },
        }
    }
}

fn white_space(c: char) -> (r: bool)
    ensures
        r == is_white_space(c),
{
    let u = c as u32;
    (0x09 <= u && u <= 0x0d) || u == 0x20 || u == 0x85 || u == 0xa0 || u == 0x1680 || (0x2000 <= u
        && u <= 0x200a) || u == 0x2028 || u == 0x2029 || u == 0x202f || u == 0x205f || u == 0x3000
}

/// Bounds of `v[lo..hi]` with leading and trailing white space removed.
fn trim_bounds(v: &Vec<char>, lo: usize, hi: usize) -> (r: (usize, usize))
    requires
        lo <= hi <= v@.len(),
    ensures
        lo <= r.0 <= r.1 <= hi,
        v@.subrange(r.0 as int, r.1 as int) == trim(v@.subrange(lo as int, hi as int)),
{
    let mut a: usize = lo;
    while a < hi && white_space(v[a])
        invariant
            lo <= a <= hi <= v@.len(),
            trim_start(v@.subrange(lo as int, hi as int)) == trim_start(v@.subrange(a as int, hi as int)),
        decreases hi - a,
    {
        assert(v@.subrange(a as int, hi as int).drop_first() =~= v@.subrange(a + 1, hi as int));
        a = a + 1;
    }
    let mut b: usize = hi;
    while b > a && white_space(v[b - 1])
        invariant
            lo <= a <= b <= hi <= v@.len(),
            trim_end(v@.subrange(a as int, hi as int)) == trim_end(v@.subrange(a as int, b as int)),
        decreases b,
    {
        assert(v@.subrange(a as int, b as int).drop_last() =~= v@.subrange(a as int, b - 1));
        b = b - 1;
    }
    (a, b)
}

proof fn lemma_digits_grow(s: Seq<char>, k: int)
    requires
        0 <= k <= s.len(),
    ensures
        digits_value(s.subrange(0, k)) <= digits_value(s),
    decreases s.len() - k,
{
    if k < s.len() {
        lemma_digits_grow(s, k + 1);
        assert(s.subrange(0, k + 1).drop_last() =~= s.subrange(0, k));
    } else {
        assert(s.subrange(0, k) =~= s);
    }
}

/// Reads `v[lo..hi]` as a decimal `i32`, as `str::parse::<i32>` does.
fn parse_i32(v: &Vec<char>, lo: usize, hi: usize) -> (r: Option<i32>)
    requires
        lo <= hi <= v@.len(),
    ensures
        r == int_text(v@.subrange(lo as int, hi as int)),
{
    let ghost s = v@.subrange(lo as int, hi as int);
    let mut i: usize = lo;
    let mut negative = false;
    if i < hi && (v[i] == '+' || v[i] == '-') {
        negative = v[i] == '-';
        i = i + 1;
    }
    let start = i;
    let ghost body = v@.subrange(start as int, hi as int);
    assert(start > lo ==> s.drop_first() =~= body);
    assert(start == lo ==> s =~= body);
    assert(s.len() > 0 ==> s[0] == v@[lo as int]);
    assert(has_sign(s) == (start > lo));
    assert(body == unsigned_part(s));
    assert(negative == (has_sign(s) && s[0] == '-'));
    if start == hi {
        return None;
    }
    let mut acc: u64 = 0;
    while i < hi
        invariant
            lo <= start <= i <= hi <= v@.len(),
            body == v@.subrange(start as int, hi as int),
            s == v@.subrange(lo as int, hi as int),
            body == unsigned_part(s),
            body.len() > 0,
            negative == (has_sign(s) && s[0] == '-'),
            acc == digits_value(v@.subrange(start as int, i as int)),
            acc <= 0x8000_0000,
            forall|k: int| start <= k < i ==> is_digit(#[trigger] v@[k]),
        decreases hi - i,
    {
        let c = v[i];
        if !('0' <= c && c <= '9') {
            assert(!is_digit(body[i - start]));
            return None;
        }
        assert(v@.subrange(start as int, i + 1).drop_last() =~= v@.subrange(start as int, i as int));
        acc = acc * 10 + (c as u64 - '0' as u64);
        i = i + 1;
        if acc > 0x8000_0000 {
            proof {
                assert(v@.subrange(start as int, i as int) =~= body.subrange(0, i - start));
                lemma_digits_grow(body, i - start);
            }
            return None;
        }
    }
    assert(v@.subrange(start as int, i as int) =~= body);
    if negative {
        Some((0 - acc as i64) as i32)
    } else if acc <= 0x7fff_ffff {
        Some(acc as i32)
    } else {
        None
    }
}

impl Note {
    pub fn as_u8(self) -> (r: u8)
        ensures
            r == self.0,
    {
        self.0
    }

    /// Reads a pitch name such as `C4`, `F#5`, `Db2` or `a-1`: surrounding
    /// white space is ignored, the octave is a signed decimal, `C4` is 60,
    /// and the result must lie in 0..=127.
    pub fn parse(input: &str) -> (r: Result<Note, NoteError>)
        ensures
            match note_of_text(trim(input@)) {
                Ok(m) => r == Ok::<Note, NoteError>(Note(m)),
                Err(e) => r == Err::<Note, NoteError>(e),
            },
    {
        let v = chars_of(input);
        assert(v@.subrange(0, v@.len() as int) =~= input@);
        let (lo, hi) = trim_bounds(&v, 0, v.len());
        let ghost t = v@.subrange(lo as int, hi as int);
        if lo == hi {
            return Err(NoteError::Empty);
        }
        let letter = v[lo];
        let base: i64 = if letter == 'C' || letter == 'c' {
            0
        } else if letter == 'D' || letter == 'd' {
            2
        } else if letter == 'E' || letter == 'e' {
            4
        } else if letter == 'F' || letter == 'f' {
            5
        } else if letter == 'G' || letter == 'g' {
            7
        } else if letter == 'A' || letter == 'a' {
            9
        } else if letter == 'B' || letter == 'b' {
            11
        } else {
            return Err(NoteError::BadLetter(letter));
        };
        let mut shift: i64 = 0;
        let mut rest: usize = lo + 1;
        if lo + 1 < hi {
            let mark = v[lo + 1];
            if mark == '#' || mark == '\u{266f}' {
                shift = 1;
                rest = lo + 2;
            } else if mark == 'b' || mark == 'B' || mark == '\u{266d}' {
                shift = -1;
                rest = lo + 2;
            }
        }
        assert(rest == lo + 2 ==> t.subrange(2, t.len() as int) =~= v@.subrange(rest as int, hi as int));
        assert(rest == lo + 1 ==> t.drop_first() =~= v@.subrange(rest as int, hi as int));
        let (olo, ohi) = trim_bounds(&v, rest, hi);
        if olo == ohi {
            return Err(NoteError::MissingOctave);
        }
        match parse_i32(&v, olo, ohi) {
            None => Err(NoteError::BadOctave),
            Some(octave) => {
                let midi: i64 = (octave as i64 + 1) * 12 + base + shift;
                if 0 <= midi && midi <= 127 {
                    Ok(Note(midi as u8))
                } else {
                    Err(NoteError::OutOfRange(midi))
                }
            },
        }
    }
}

/// Pitch class (0 is C) and octave (`C4` is 60) of a MIDI note number.
pub fn pitch_class_and_octave(pitch: u8) -> (r: (u8, i32))
    ensures
        r.0 == pitch % 12,
        r.1 == pitch / 12 - 1,
        (r.1 + 1) * 12 + r.0 == pitch,
{
    (pitch % 12, (pitch / 12) as i32 - 1)
}

/// Name of a pitch class with sharps: `C`, `C#`, `D`, ... `B`.
pub open spec fn class_name(class: u8) -> Seq<char> {
    if class == 0 {
        seq!['C']
    } else if class == 1 {
        seq!['C', '#']
    } else if class == 2 {
        seq!['D']
    } else if class == 3 {
        seq!['D', '#']
    } else if class == 4 {
        seq!['E']
    } else if class == 5 {
        seq!['F']
    } else if class == 6 {
        seq!['F', '#']
    } else if class == 7 {
        seq!['G']
    } else if class == 8 {
        seq!['G', '#']
    } else if class == 9 {
        seq!['A']
    } else if class == 10 {
        seq!['A', '#']
    } else {
        seq!['B']
    }
}

/// The name of a pitch class (0 is C), sharps for the black keys.
pub fn pitch_class_name(class: u8) -> (r: &'static str)
    requires
        class < 12,
    ensures
        r@ == class_name(class),
{
    proof {
        reveal_strlit("C");
        reveal_strlit("C#");
        reveal_strlit("D");
        reveal_strlit("D#");
        reveal_strlit("E");
        reveal_strlit("F");
        reveal_strlit("F#");
        reveal_strlit("G");
        reveal_strlit("G#");
        reveal_strlit("A");
        reveal_strlit("A#");
        reveal_strlit("B");
    }
    if class == 0 {
        "C"
    } else if class == 1 {
        "C#"
    } else if class == 2 {
        "D"
    } else if class == 3 {
        "D#"
    } else if class == 4 {
        "E"
    } else if class == 5 {
        "F"
    } else if class == 6 {
        "F#"
    } else if class == 7 {
        "G"
    } else if class == 8 {
        "G#"
    } else if class == 9 {
        "A"
    } else if class == 10 {
        "A#"
    } else {
        "B"
    }
}

impl std::str::FromStr for Note {
    type Err = NoteError;

    /// Same as `Note::parse`.
    fn from_str(input: &str) -> (r: Result<Note, NoteError>)
        ensures
            match note_of_text(trim(input@)) {
                Ok(m) => r == Ok::<Note, NoteError>(Note(m)),
                Err(e) => r == Err::<Note, NoteError>(e),
            },
    {
        Note::parse(input)
    }
}

} // verus!
