use crate::sink::Diff;
use vstd::prelude::*;

verus! {

/// A pass-through sink that buffers neighbouring reports and coalesces a
/// delete and an insert standing at the same anchor into one `replace`,
/// giving blocks of maximal length.  Any intervening `equal` flushes the
/// buffer, and `finish` flushes whatever is left.
pub struct Replace<D: Diff> {
    d: D,
    del: Option<(usize, usize, usize)>,
    ins: Option<(usize, usize, usize)>,
    eq: Option<(usize, usize, usize)>,
}

impl<D: Diff> Replace<D> {
    /// Wraps a sink.
    pub fn new(d: D) -> (r: Replace<D>) {
        Replace { d, del: None, ins: None, eq: None }
    }

    /// Surrenders the wrapped sink.
    pub fn into_inner(self) -> (r: D) {
        self.d
    }

    /// Sends the buffered delete/insert pair on: as one `replace` when
    /// both are pending, else whichever is.
    fn flush_edits(&mut self) -> Result<(), D::Error> {
        match self.del.take() {
            Some((old0, len0, new0)) => {
                match self.ins.take() {
                    Some((_, new1, new_len1)) => self.d.replace(old0, len0, new1, new_len1),
                    None => self.d.delete(old0, len0, new0),
                }
            },
            None => {
                match self.ins.take() {
                    Some((old0, new0, new_len0)) => self.d.insert(old0, new0, new_len0),
                    None => Ok(()),
                }
            },
        }
    }

    /// Sends the buffered equal stretch on, if any.
    fn flush_eq(&mut self) -> Result<(), D::Error> {
        match self.eq.take() {
            Some((a, b, c)) => self.d.equal(a, b, c),
            None => Ok(()),
        }
    }
}

impl<D: Diff> Diff for Replace<D> {
    type Error = D::Error;

    fn equal(&mut self, old: usize, new: usize, len: usize) -> Result<(), D::Error> {
        self.flush_edits()?;
        match self.eq.take() {
            Some((a, b, c)) => {
                if len <= usize::MAX - c {
                    self.eq = Some((a, b, c + len));
                } else {
                    self.d.equal(a, b, c)?;
                    self.eq = Some((old, new, len));
                }
            },
            None => {
                self.eq = Some((old, new, len));
            },
        }
        Ok(())
    }

    fn delete(&mut self, old: usize, len: usize, new: usize) -> Result<(), D::Error> {
        self.flush_eq()?;
        match self.del.take() {
            Some((old0, len0, new0)) => {
                // A contiguous report extends the pending delete; the
                // engine only ever reports contiguously, but a stray
                // report is passed on rather than merged wrongly.
                if old0 <= usize::MAX - len0 && len0 <= usize::MAX - len && old0 + len0 == old {
                    self.del = Some((old0, len0 + len, new0));
                } else {
                    self.d.delete(old0, len0, new0)?;
                    self.del = Some((old, len, new));
                }
            },
            None => {
                self.del = Some((old, len, new));
            },
        }
        Ok(())
    }

    fn insert(&mut self, old: usize, new: usize, new_len: usize) -> Result<(), D::Error> {
        self.flush_eq()?;
        match self.ins.take() {
            Some((old1, new1, new_len1)) => {
                if new_len1 <= usize::MAX - new1 && new1 + new_len1 == new && new_len
                    <= usize::MAX - new_len1 {
                    self.ins = Some((old1, new1, new_len1 + new_len));
                } else {
                    self.d.insert(old1, new1, new_len1)?;
                    self.ins = Some((old, new, new_len));
                }
            },
            None => {
                self.ins = Some((old, new, new_len));
            },
        }
        Ok(())
    }

    fn replace(
        &mut self,
        old: usize,
        old_len: usize,
        new: usize,
        new_len: usize,
    ) -> Result<(), D::Error> {
        self.flush_eq()?;
        self.d.replace(old, old_len, new, new_len)
    }

    fn finish(&mut self) -> Result<(), D::Error> {
        self.flush_eq()?;
        self.flush_edits()?;
        self.d.finish()
    }
}

} // verus!
