use vstd::prelude::*;

verus! {

/// The twelve pitch classes of the chromatic scale, from C.
#[derive(Copy, Clone, Debug, PartialEq, Eq, Structural)]
pub enum PitchClass {
    C,
    Cs,
    D,
    Ds,
    E,
    F,
    Fs,
    G,
    Gs,
    A,
    As,
    B,
}

/// The number of semitones from C up to the pitch class.
pub open spec fn semitone(pc: PitchClass) -> int {
    match pc {
        PitchClass::C => 0,
        PitchClass::Cs => 1,
        PitchClass::D => 2,
        PitchClass::Ds => 3,
        PitchClass::E => 4,
        PitchClass::F => 5,
        PitchClass::Fs => 6,
        PitchClass::G => 7,
        PitchClass::Gs => 8,
        PitchClass::A => 9,
        PitchClass::As => 10,
        PitchClass::B => 11,
    }
}

/// The midi note of a pitch class in an octave: note 12 is C0, note 69 is A4.
pub open spec fn midi_note(pc: PitchClass, octave: int) -> int {
    (octave + 1) * 12 + semitone(pc)
}

impl PitchClass {
    /// The pitch class of a midi note, in any octave (negative notes included).
    pub fn from_midi(midi_note: i32) -> (pc: PitchClass)
        ensures
            semitone(pc) == midi_note % 12,
    {
        let r = midi_note.checked_rem_euclid(12).unwrap();
        match r {
            0 => PitchClass::C,
            1 => PitchClass::Cs,
            2 => PitchClass::D,
            3 => PitchClass::Ds,
            4 => PitchClass::E,
            5 => PitchClass::F,
            6 => PitchClass::Fs,
            7 => PitchClass::G,
            8 => PitchClass::Gs,
            9 => PitchClass::A,
            10 => PitchClass::As,
            _ => PitchClass::B,
        }
    }

    /// The midi note of this pitch class in `octave`.
    pub fn to_midi(&self, octave: i32) -> (n: i32)
        requires
            i32::MIN <= (octave + 1) * 12,
            midi_note(*self, octave as int) <= i32::MAX,
        ensures
            n == midi_note(*self, octave as int),
    {
        let note: i32 = match self {
            PitchClass::C => 0,
            PitchClass::Cs => 1,
            PitchClass::D => 2,
            PitchClass::Ds => 3,
            PitchClass::E => 4,
            PitchClass::F => 5,
            PitchClass::Fs => 6,
            PitchClass::G => 7,
            PitchClass::Gs => 8,
            PitchClass::A => 9,
            PitchClass::As => 10,
            PitchClass::B => 11,
        };
        (octave + 1) * 12 + note
    }

    /// The name of the pitch class, with `#` for sharps.
    pub fn name(&self) -> (s: &'static str)
        ensures
            s@ == pitch_name(*self),
    {
        match self {
            PitchClass::C => "C",
            PitchClass::Cs => "C#",
            PitchClass::D => "D",
            PitchClass::Ds => "D#",
            PitchClass::E => "E",
            PitchClass::F => "F",
            PitchClass::Fs => "F#",
            PitchClass::G => "G",
            PitchClass::Gs => "G#",
            PitchClass::A => "A",
            PitchClass::As => "A#",
            PitchClass::B => "B",
        }
    }
}

pub open spec fn pitch_name(pc: PitchClass) -> Seq<char> {
    match pc {
        PitchClass::C => "C"@,
        PitchClass::Cs => "C#"@,
        PitchClass::D => "D"@,
        PitchClass::Ds => "D#"@,
        PitchClass::E => "E"@,
        PitchClass::F => "F"@,
        PitchClass::Fs => "F#"@,
        PitchClass::G => "G"@,
        PitchClass::Gs => "G#"@,
        PitchClass::A => "A"@,
        PitchClass::As => "A#"@,
        PitchClass::B => "B"@,
    }
}

/// A pitch class is fixed by its semitone.
pub proof fn lemma_semitone_injective(a: PitchClass, b: PitchClass)
    requires
        semitone(a) == semitone(b),
    ensures
        a == b,
{
}

/// Reading the pitch class back from a midi note gives the pitch class the note was made
/// from, in every octave.
pub proof fn lemma_midi_roundtrip(pc: PitchClass, octave: int, pc2: PitchClass)
    requires
        semitone(pc2) == midi_note(pc, octave) % 12,
    ensures
        pc2 == pc,
{
    assert(midi_note(pc, octave) % 12 == semitone(pc)) by (nonlinear_arith)
        requires
            0 <= semitone(pc) < 12,
            midi_note(pc, octave) == (octave + 1) * 12 + semitone(pc),
    ;
}

/// Every midi note is its pitch class in the octave below its twelfth, offset by one.
pub proof fn lemma_midi_decompose(n: int, pc: PitchClass)
    requires
        semitone(pc) == n % 12,
    ensures
        midi_note(pc, n / 12 - 1) == n,
{
}

} // verus!
