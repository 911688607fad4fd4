use vstd::prelude::*;

verus! {

/// A sink for an edit script from an "old" version to a "new" version.
/// The diff engine drives one of these, reporting in order the stretches
/// that match and the stretches to delete or insert; `finish` closes the
/// script.  Implementors turn the reports into whatever they are
/// building; any error they return stops the engine and comes back out.
pub trait Diff: Sized {
    type Error;

    /// Lines `old` and `new` start a stretch of `len` equal elements.
    fn equal(&mut self, old: usize, new: usize, len: usize) -> Result<(), Self::Error>;

    /// A stretch of `len` elements at `old` is absent from the new
    /// version; `new` is where the gap falls there.
    fn delete(&mut self, old: usize, len: usize, new: usize) -> Result<(), Self::Error>;

    /// A stretch of `new_len` elements at `new` in the new version is
    /// to appear at position `old`.
    fn insert(&mut self, old: usize, new: usize, new_len: usize) -> Result<(), Self::Error>;

    /// A stretch of `old_len` elements at `old` is to give way to
    /// `new_len` elements at `new`: a delete and an insert at one
    /// anchor.
    fn replace(
        &mut self,
        old: usize,
        old_len: usize,
        new: usize,
        new_len: usize,
    ) -> Result<(), Self::Error>;

    /// Called once at the end of the script.
    fn finish(&mut self) -> Result<(), Self::Error>;
}

} // verus!
