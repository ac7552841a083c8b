use vstd::prelude::*;

verus! {

/// Steps several sequences in lockstep: each call of `next` yields the column
/// the cursor points at, one element from each sequence in order, and then
/// advances the cursor. It yields nothing once any sequence is exhausted, so
/// every yielded column is complete.
pub struct DynMultiZip<T> {
    /// The zipped sequences.
    pub rows: Vec<Vec<T>>,
    /// The position of the next column to yield.
    pub pos: usize,
}

impl<T: Copy> DynMultiZip<T> {
    /// Every sequence still has an element at column `k`.
    pub open spec fn can_yield(self, k: int) -> bool {
        forall|j: int| 0 <= j < self.rows@.len() ==> k < (#[trigger] self.rows@[j])@.len()
    }

    /// Starts the zip at the first column.
    pub fn new(rows: Vec<Vec<T>>) -> (r: Self)
        ensures
            r.rows == rows,
            r.pos == 0,
    {
        DynMultiZip { rows, pos: 0 }
    }

    /// Yields the current column, one element from each sequence in order,
    /// and advances; yields `None`, and stays put, once some sequence has no
    /// element left at the cursor.
    pub fn next(&mut self) -> (r: Option<Vec<T>>)
        requires
            old(self).pos < usize::MAX,
        ensures
            final(self).rows == old(self).rows,
            match r {
                Some(col) => {
                    &&& old(self).can_yield(old(self).pos as int)
                    &&& final(self).pos == old(self).pos + 1
                    &&& col@.len() == final(self).rows@.len()
                    &&& forall|j: int|
                        0 <= j < col@.len() ==> #[trigger] col@[j] == final(self).rows@[j]@[old(
                            self,
                        ).pos as int]
                },
                None => {
                    &&& !old(self).can_yield(old(self).pos as int)
                    &&& final(self).pos == old(self).pos
                },
            },
    {
        let mut col: Vec<T> = Vec::new();
        let k = self.rows.len();
        let mut j: usize = 0;
        while j < k
            invariant
                j <= k,
                k == self.rows@.len(),
                *self == *old(self),
                col@.len() == j,
                forall|jj: int|
                    0 <= jj < j ==> #[trigger] col@[jj] == self.rows@[jj]@[self.pos as int],
                forall|jj: int| 0 <= jj < j ==> self.pos < (#[trigger] self.rows@[jj])@.len(),
            decreases k - j,
        {
            if self.pos >= self.rows[j].len() {
                return None;
            }
            col.push(self.rows[j][self.pos]);
            j = j + 1;
        }
        self.pos = self.pos + 1;
        Some(col)
    }
}

} // verus!
