//! Connection matrices of either kind.

use vstd::prelude::*;

use crate::dic::connect::bitpacked;
use crate::dic::connect::flat;

verus! {

/// A connection matrix, uncompressed or packed, all of whose costs can be read.
pub struct Connections<'a> {
    kind: Kind<'a>,
}

enum Kind<'a> {
    Flat(flat::ConnectionMatrix<'a>),
    Packed(bitpacked::ConnectionMatrix<'a>),
}

impl<'a> Connections<'a> {
    /// Number of columns.
    pub closed spec fn columns(self) -> nat {
        match self.kind {
            Kind::Flat(m) => m.columns(),
            Kind::Packed(m) => m.model().num_left,
        }
    }

    /// Number of rows.
    pub closed spec fn rows(self) -> nat {
        match self.kind {
            Kind::Flat(m) => m.rows(),
            Kind::Packed(m) => m.model().num_right,
        }
    }

    /// The costs, row after row.
    pub closed spec fn costs(self) -> Seq<i16> {
        match self.kind {
            Kind::Flat(m) => m.costs(),
            Kind::Packed(m) => bitpacked::costs_of(m.model()),
        }
    }

    #[verifier::type_invariant]
    spec fn is_readable(self) -> bool {
        match self.kind {
            Kind::Flat(m) => m.wf(),
            Kind::Packed(m) => bitpacked::is_readable(m.model()),
        }
    }

    /// An uncompressed matrix.
    pub fn flat(matrix: flat::ConnectionMatrix<'a>) -> (connections: Connections<'a>)
        requires
            matrix.wf(),
        ensures
            connections.columns() == matrix.columns(),
            connections.rows() == matrix.rows(),
            connections.costs() == matrix.costs(),
    {
        Connections { kind: Kind::Flat(matrix) }
    }

    /// A packed matrix.
    pub fn packed(matrix: bitpacked::ConnectionMatrix<'a>) -> (connections: Connections<'a>)
        requires
            bitpacked::is_readable(matrix.model()),
        ensures
            connections.columns() == matrix.model().num_left,
            connections.rows() == matrix.model().num_right,
            connections.costs() == bitpacked::costs_of(matrix.model()),
    {
        Connections { kind: Kind::Packed(matrix) }
    }

    /// The same matrix, independent of the bytes that it was read from.
    pub fn into_owned<'b>(self) -> (connections: Connections<'b>)
        ensures
            connections.columns() == self.columns(),
            connections.rows() == self.rows(),
            connections.costs() == self.costs(),
    {
        proof {
            use_type_invariant(&self);
        }
        match self.kind {
            Kind::Flat(m) => Connections { kind: Kind::Flat(m.into_owned()) },
            Kind::Packed(m) => Connections { kind: Kind::Packed(m.into_owned()) },
        }
    }

    /// The cost in a column and a row.
    pub fn cost(&self, left: u16, right: u16) -> (cost: i16)
        requires
            left < self.columns(),
            right < self.rows(),
        ensures
            cost == self.costs()[right * self.columns() + left],
    {
        proof {
            use_type_invariant(self);
        }
        match &self.kind {
            Kind::Flat(m) => m.cost(left, right),
            Kind::Packed(m) => {
                proof {
                    bitpacked::lemma_cost_place(m.model(), left as int, right as int);
                }
                m.cost(left, right)
            },
        }
    }

    /// Number of columns.
    pub fn num_left(&self) -> (n: usize)
        ensures
            n == self.columns(),
    {
        match &self.kind {
            Kind::Flat(m) => m.num_left(),
            Kind::Packed(m) => m.num_left(),
        }
    }

    /// Number of rows.
    pub fn num_right(&self) -> (n: usize)
        ensures
            n == self.rows(),
    {
        match &self.kind {
            Kind::Flat(m) => m.num_right(),
            Kind::Packed(m) => m.num_right(),
        }
    }
}

} // verus!
