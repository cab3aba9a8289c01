//! The uncompressed connection matrix.

use vstd::prelude::*;

use crate::bytes;
use crate::error;
use crate::error::{SudachiError, SudachiResult};
use crate::util::cow_array::CowArray;

verus! {

/// A connection matrix that stores each cost as a 16-bit integer, row by row.
pub struct ConnectionMatrix<'a> {
    data: CowArray<'a>,
    num_left: usize,
    num_right: usize,
}

impl<'a> ConnectionMatrix<'a> {
    /// The costs, row after row.
    pub closed spec fn costs(self) -> Seq<i16> {
        self.data@
    }

    /// Number of columns.
    pub closed spec fn columns(self) -> nat {
        self.num_left as nat
    }

    /// Number of rows.
    pub closed spec fn rows(self) -> nat {
        self.num_right as nat
    }

    /// The matrix has a cost for each column and row.
    pub open spec fn wf(self) -> bool {
        &&& self.costs().len() == self.columns() * self.rows()
        &&& self.costs().len() <= usize::MAX
    }

    /// Where the cost of a column and a row stands.
    pub open spec fn index_of(self, left: int, right: int) -> int {
        right * self.columns() + left
    }

    /// The cost in a column and a row.
    pub open spec fn cost_at(self, left: int, right: int) -> i16 {
        self.costs()[self.index_of(left, right)]
    }

    /// The matrix with `num_left` columns and `num_right` rows that `data` holds from byte
    /// `offset` on.
    pub fn from_offset_size(
        data: &'a [u8],
        offset: usize,
        num_left: usize,
        num_right: usize,
    ) -> (res: SudachiResult<ConnectionMatrix<'a>>)
        requires
            offset + num_left * num_right <= usize::MAX,
            offset + num_left * num_right <= data.len() ==> offset + 2 * (num_left * num_right)
                <= data.len(),
        ensures
            if offset + num_left * num_right > data.len() {
                res matches Err(e) && e.model() == error::with_context(
                    error::ErrorModel::InvalidDictionaryGrammar,
                    "connection matrix"@,
                )
            } else {
                res matches Ok(m) && {
                    &&& m.wf()
                    &&& m.columns() == num_left
                    &&& m.rows() == num_right
                    &&& m.costs() == bytes::i16s_at(
                        data@,
                        offset as int,
                        (num_left * num_right) as nat,
                    )
                }
            },
    {
        proof {
            assert(0 <= num_left * num_right) by (nonlinear_arith)
                requires
                    0 <= num_left,
                    0 <= num_right,
            ;
        }
        let size: usize = num_left * num_right;
        let end: usize = offset + size;
        if end > data.len() {
            return Err(SudachiError::InvalidDictionaryGrammar.with_context("connection matrix"));
        }
        Ok(ConnectionMatrix { data: CowArray::from_bytes(data, offset, size), num_left, num_right })
    }

    /// The same matrix, independent of the bytes that it was read from.
    pub fn into_owned<'b>(self) -> (matrix: ConnectionMatrix<'b>)
        ensures
            matrix.costs() == self.costs(),
            matrix.columns() == self.columns(),
            matrix.rows() == self.rows(),
    {
        ConnectionMatrix {
            data: self.data.into_owned(),
            num_left: self.num_left,
            num_right: self.num_right,
        }
    }

    /// Where the cost of a column and a row stands.
    fn index(&self, left: u16, right: u16) -> (index: usize)
        requires
            self.wf(),
            left < self.columns(),
            right < self.rows(),
        ensures
            index == self.index_of(left as int, right as int),
            index < self.costs().len(),
    {
        proof {
            self.lemma_index(left as int, right as int);
        }
        right as usize * self.num_left + left as usize
    }

    /// The place of a cell lies within the matrix.
    pub proof fn lemma_index(self, left: int, right: int)
        requires
            self.wf(),
            0 <= left < self.columns(),
            0 <= right < self.rows(),
        ensures
            0 <= self.index_of(left, right) < self.costs().len(),
            0 <= right * self.columns() <= self.index_of(left, right),
    {
        let c = self.columns() as int;
        let r = self.rows() as int;
        assert(right * c + left < c * r && 0 <= right * c) by (nonlinear_arith)
            requires
                0 <= left < c,
                0 <= right < r,
        ;
    }

    /// Different cells stand in different places.
    pub proof fn lemma_index_injective(self, left: int, right: int, left2: int, right2: int)
        requires
            0 <= left < self.columns(),
            0 <= left2 < self.columns(),
            self.index_of(left, right) == self.index_of(left2, right2),
        ensures
            left == left2,
            right == right2,
    {
        let c = self.columns() as int;
        assert(left == left2 && right == right2) by (nonlinear_arith)
            requires
                0 <= left < c,
                0 <= left2 < c,
                right * c + left == right2 * c + left2,
        ;
    }

    /// The cost in a column and a row.
    pub fn cost(&self, left: u16, right: u16) -> (cost: i16)
        requires
            self.wf(),
            left < self.columns(),
            right < self.rows(),
        ensures
            cost == self.cost_at(left as int, right as int),
    {
        let index: usize = self.index(left, right);
        match self.data.get(index) {
            Some(cost) => cost,
            None => 0,
        }
    }

    /// Replaces the cost in a column and a row, and no other.
    pub fn update(&mut self, left: u16, right: u16, value: i16)
        requires
            old(self).wf(),
            left < old(self).columns(),
            right < old(self).rows(),
        ensures
            final(self).wf(),
            final(self).columns() == old(self).columns(),
            final(self).rows() == old(self).rows(),
            final(self).costs() == old(self).costs().update(
                old(self).index_of(left as int, right as int),
                value,
            ),
    {
        let index: usize = self.index(left, right);
        self.data.set(index, value);
    }

    /// Number of columns.
    pub fn num_left(&self) -> (n: usize)
        ensures
            n == self.columns(),
    {
        self.num_left
    }

    /// Number of rows.
    pub fn num_right(&self) -> (n: usize)
        ensures
            n == self.rows(),
    {
        self.num_right
    }
}

/// After an update the updated cell has the new cost and every other cell keeps its own.
pub proof fn law_update_changes_one_cell(
    before: ConnectionMatrix,
    after: ConnectionMatrix,
    left: int,
    right: int,
    value: i16,
    l: int,
    r: int,
)
    requires
        before.wf(),
        0 <= left < before.columns(),
        0 <= right < before.rows(),
        0 <= l < before.columns(),
        0 <= r < before.rows(),
        after.columns() == before.columns(),
        after.costs() == before.costs().update(before.index_of(left, right), value),
    ensures
        after.cost_at(l, r) == if l == left && r == right {
            value
        } else {
            before.cost_at(l, r)
        },
{
    before.lemma_index(left, right);
    before.lemma_index(l, r);
    if before.index_of(l, r) == before.index_of(left, right) {
        before.lemma_index_injective(left, right, l, r);
    }
}

/// The costs of a row stand side by side, one for each column, and the rows one behind the other.
pub proof fn law_costs_stand_row_after_row(m: ConnectionMatrix, left: int, right: int)
    requires
        m.wf(),
        0 <= left < m.columns(),
        0 <= right < m.rows(),
    ensures
        0 <= right * m.columns() + left < m.costs().len(),
        m.cost_at(left, right) == m.costs()[right * m.columns() + left],
{
    m.lemma_index(left, right);
}

} // verus!
