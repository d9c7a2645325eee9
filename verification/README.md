# ptrack

A pitch tracker plugin built on the YIN algorithm, with its data structures
and index arithmetic proved correct against their contracts.

- `src/bislice.rs`: `DoubleSlice`, a read-only sequence stored in two slices
  (such as the two halves of a ring buffer), its iterator `Iter`, and range
  normalisation.
- `src/bislice_mut.rs`: `DoubleSliceMut` and `IterMut`, the writable
  counterparts; their contracts say what reaches the underlying slices.
- `src/util.rs`: `ThreeSmooth`, the 3-smooth numbers in non-decreasing order,
  with proofs that every value is 3-smooth, that the values are sorted, that
  none is skipped and that every 3-smooth number is produced.
- `src/yin.rs`: `YinParams`, the transform lengths (padded to the next
  3-smooth length) and the index ranges that one analysis reads and writes.
- `src/note.rs`: a semitone count as note class and octave.
- `app/`: the plugin itself: the floating-point YIN analysis over `realfft`,
  the `egui` editor, the `rtrb` ring buffer between the audio and GUI
  threads, and the `nice-plug` plugin glue.

`DoubleSliceMut` offers no `From` conversions and no `IndexMut`: their
contracts over mutable borrows cannot be stated in the form these traits
take. `new`, `from_single`, `into_mut_slices` and `get_mut` do the same work.
