//! Naming a pitch: a count of semitones above C0 as a note class and octave.
use vstd::prelude::*;

verus! {

/// The note class (0 for C up to 11 for B) and the octave of the note
/// `semitones` semitones above C0; negative counts fall in octaves below 0.
pub fn note_position(semitones: isize) -> (r: (usize, isize))
    ensures
        r.0 as int == semitones as int % 12,
        r.1 as int == semitones as int / 12,
        r.0 < 12,
        semitones == 12 * r.1 + r.0,
{
    let class = semitones.checked_rem_euclid(12).unwrap();
    let octave = semitones.checked_div_euclid(12).unwrap();
    (class as usize, octave)
}

} // verus!
