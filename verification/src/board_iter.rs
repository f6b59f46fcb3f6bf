use vstd::prelude::*;

use crate::board_index::{BoardIndex, N};

verus! {

/// A cursor over all nine positions of a board, in row-major order.
///
/// Obtained from [`crate::board::Board::enumerate`]; repeated calls of
/// [`BoardEnumerate::next`] yield each position once, then `None`.
#[derive(Clone, Debug)]
pub struct BoardEnumerate {
    pub indices: Vec<BoardIndex>,
    pub pos: usize,
}

impl BoardEnumerate {
    pub open spec fn wf(self) -> bool {
        self.pos <= self.indices@.len()
    }

    /// A cursor over all nine positions in row-major order.
    pub(crate) fn over_all() -> (r: BoardEnumerate)
        ensures
            r.wf(),
            r.pos == 0,
            r.indices@.len() == N,
            forall|k: int| 0 <= k < N ==> (#[trigger] r.indices@[k]).as_int() == k,
    {
        let mut v: Vec<BoardIndex> = Vec::new();
        let mut i: usize = 0;
        while i < N
            invariant
                i <= N,
                v@.len() == i,
                forall|k: int| 0 <= k < i ==> (#[trigger] v@[k]).as_int() == k,
            decreases N - i,
        {
            let b = BoardIndex::from_usize(i).unwrap();
            proof {
                crate::board_index::lemma_index_round_trip();
            }
            v.push(b);
            i = i + 1;
        }
        BoardEnumerate { indices: v, pos: 0 }
    }

    /// Returns the next position, or `None` once all have been yielded.
    pub fn next(&mut self) -> (r: Option<BoardIndex>)
        requires
            old(self).wf(),
        ensures
            final(self).wf(),
            final(self).indices == old(self).indices,
            old(self).pos < old(self).indices@.len() ==> {
                &&& r == Some(old(self).indices@[old(self).pos as int])
                &&& final(self).pos == old(self).pos + 1
            },
            old(self).pos >= old(self).indices@.len() ==> {
                &&& r is None
                &&& final(self).pos == old(self).pos
            },
    {
        if self.pos < self.indices.len() {
            let b = self.indices[self.pos];
            self.pos = self.pos + 1;
            Some(b)
        } else {
            None
        }
    }
}

/// A cursor over the positions of a board whose slots can still be marked,
/// in increasing position order.
///
/// Obtained from [`crate::board::Board::unmarked`]; the positions reflect the
/// board at the time the cursor was made.
#[derive(Clone, Debug)]
pub struct Unmarked {
    pub indices: Vec<BoardIndex>,
    pub pos: usize,
}

impl Unmarked {
    pub open spec fn wf(self) -> bool {
        self.pos <= self.indices@.len()
    }

    /// Returns the next markable position, or `None` once all have been
    /// yielded.
    pub fn next(&mut self) -> (r: Option<BoardIndex>)
        requires
            old(self).wf(),
        ensures
            final(self).wf(),
            final(self).indices == old(self).indices,
            old(self).pos < old(self).indices@.len() ==> {
                &&& r == Some(old(self).indices@[old(self).pos as int])
                &&& final(self).pos == old(self).pos + 1
            },
            old(self).pos >= old(self).indices@.len() ==> {
                &&& r is None
                &&& final(self).pos == old(self).pos
            },
    {
        if self.pos < self.indices.len() {
            let b = self.indices[self.pos];
            self.pos = self.pos + 1;
            Some(b)
        } else {
            None
        }
    }
}

} // verus!
