//! An in-memory output sink with a hard byte budget.
use vstd::prelude::*;

verus! {

/// A write was refused because it would exceed the remaining output budget.
#[derive(Debug, Clone, Copy, PartialEq, Eq, Structural)]
pub struct OutputBudgetExceeded;

/// Collects written bytes and refuses, as a whole, any write larger than what remains of
/// its budget: no byte of a refused write is kept.
pub struct BoundedWriter {
    pub inner: Vec<u8>,
    pub remaining: usize,
}

/// What one write does: when the bytes fit in what remains, they are appended and the
/// remaining budget shrinks by their number; otherwise nothing changes.
pub open spec fn write_step(before: BoundedWriter, bytes: Seq<u8>, after: BoundedWriter) -> bool {
    if bytes.len() <= before.remaining {
        after.inner@ == before.inner@ + bytes && after.remaining == before.remaining - bytes.len()
    } else {
        after.inner@ == before.inner@ && after.remaining == before.remaining
    }
}

/// A writer never holds more than its budget: through any write, the bytes it holds plus
/// the bytes that remain stay what they were, so a writer made with budget `b` holds at
/// most `b` bytes however it is written to.
pub proof fn law_budget_conserved(before: BoundedWriter, bytes: Seq<u8>, after: BoundedWriter)
    requires
        write_step(before, bytes, after),
    ensures
        after.inner@.len() + after.remaining == before.inner@.len() + before.remaining,
        after.inner@.len() >= before.inner@.len(),
        before.inner@.is_prefix_of(after.inner@),
{
    if bytes.len() <= before.remaining {
        assert(after.inner@.subrange(0, before.inner@.len() as int) =~= before.inner@);
    } else {
        assert(after.inner@.subrange(0, before.inner@.len() as int) =~= before.inner@);
    }
}

impl BoundedWriter {
    /// An empty sink that accepts at most `budget` bytes in all.
    pub fn new(budget: usize) -> (w: Self)
        ensures
            w.inner@ == Seq::<u8>::empty(),
            w.remaining == budget,
    {
        BoundedWriter { inner: Vec::new(), remaining: budget }
    }

    /// Appends all of `bytes` when they fit in the remaining budget, and returns how many
    /// were written; otherwise refuses them and changes nothing.
    pub fn write(&mut self, bytes: &[u8]) -> (r: Result<usize, OutputBudgetExceeded>)
        ensures
            write_step(*old(self), bytes@, *final(self)),
            bytes@.len() > old(self).remaining ==> r is Err && final(self).inner@ == old(
                self,
            ).inner@ && final(self).remaining == old(self).remaining,
            bytes@.len() <= old(self).remaining ==> r == Ok::<usize, OutputBudgetExceeded>(
                bytes@.len() as usize,
            ) && final(self).inner@ == old(self).inner@ + bytes@ && final(self).remaining == old(
                self,
            ).remaining - bytes@.len(),
    {
        if bytes.len() > self.remaining {
            return Err(OutputBudgetExceeded);
        }
        self.inner.extend_from_slice(bytes);
        self.remaining = self.remaining - bytes.len();
        proof {
            assert(self.inner@ =~= old(self).inner@ + bytes@);
        }
        Ok(bytes.len())
    }

    /// Writes all of `bytes`, or none of them when they do not fit in the remaining budget.
    pub fn write_all(&mut self, bytes: &[u8]) -> (r: Result<(), OutputBudgetExceeded>)
        ensures
            write_step(*old(self), bytes@, *final(self)),
            r is Ok <==> bytes@.len() <= old(self).remaining,
            r is Err ==> final(self).inner@ == old(self).inner@ && final(self).remaining == old(
                self,
            ).remaining,
            r is Ok ==> final(self).inner@ == old(self).inner@ + bytes@ && final(self).remaining
                == old(self).remaining - bytes@.len(),
    {
        match self.write(bytes) {
            Ok(_) => Ok(()),
            Err(e) => Err(e),
        }
    }

    /// Nothing is buffered, so flushing always succeeds and changes nothing.
    pub fn flush(&mut self) -> (r: Result<(), OutputBudgetExceeded>)
        ensures
            r is Ok,
            final(self).inner@ == old(self).inner@,
            final(self).remaining == old(self).remaining,
    {
        Ok(())
    }
}

} // verus!
