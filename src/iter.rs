//! Forward iteration over all elements, or over a range of them.
use vstd::prelude::*;

use std::ops::Bound;

use crate::piece::{piece_fits, piece_offset};
use crate::table::{lemma_elem_at, lemma_offset_step, Location, PieceTable};

verus! {

/// `std::ops::Bound`, with its variants visible, so that ranges can be matched on.
#[verifier::external_type_specification]
#[verifier::reject_recursive_types(V)]
pub struct ExBound<V>(Bound<V>);

/// The first index that a lower bound admits.
pub open spec fn start_index(b: Bound<usize>) -> int {
    match b {
        Bound::Included(x) => x as int,
        Bound::Excluded(x) => x + 1,
        Bound::Unbounded => 0,
    }
}

/// One past the last index that an upper bound admits, in a sequence of length `len`.
pub open spec fn end_index(b: Bound<usize>, len: int) -> int {
    match b {
        Bound::Included(x) => x + 1,
        Bound::Excluded(x) => x as int,
        Bound::Unbounded => len,
    }
}

/// Iterates the elements of a `PieceTable` from a position on.
pub struct Iter<'a, T: 'a> {
    table: &'a PieceTable<'a, T>,
    piece_idx: usize,
    offset: usize,
}

/// Iterates the elements of a `PieceTable` in a range of positions.
pub struct Range<'a, T: 'a> {
    iter: Iter<'a, T>,
    idx: usize,
    to: usize,
}

impl<'a, T: 'a> Iter<'a, T> {
    /// The logical index of the next element.
    pub closed spec fn position(&self) -> int {
        piece_offset(self.table.pieces@, self.piece_idx as int) + self.offset
    }

    /// The elements still to come, in order.
    pub closed spec fn remaining(&self) -> Seq<T> {
        self.table@.skip(self.position())
    }

    /// The table is well formed and the position lies inside a piece, or at the very end.
    pub closed spec fn wf(&self) -> bool {
        &&& self.table.wf()
        &&& self.piece_idx <= self.table.pieces@.len()
        &&& self.piece_idx == self.table.pieces@.len() ==> self.offset == 0
        &&& self.piece_idx < self.table.pieces@.len() ==> self.offset
            < self.table.pieces@[self.piece_idx as int].length
    }

    /// The next element, if any is left.
    pub fn next(&mut self) -> (r: Option<&'a T>)
        requires
            old(self).wf(),
        ensures
            final(self).wf(),
            match r {
                Some(x) => {
                    &&& old(self).remaining().len() > 0
                    &&& *x == old(self).remaining()[0]
                    &&& final(self).remaining() == old(self).remaining().drop_first()
                },
                None => {
                    &&& old(self).remaining().len() == 0
                    &&& final(self).remaining() == old(self).remaining()
                },
            },
    {
        let table = self.table;
        proof {
            table.lemma_reveal();
        }
        if self.piece_idx >= table.pieces.len() {
            proof {
                assert(table.pieces@.take(table.pieces@.len() as int) =~= table.pieces@);
            }
            return None;
        }
        let piece = table.pieces[self.piece_idx];
        let ghost pos = self.position();
        proof {
            let ps = table.pieces@;
            assert(piece_fits(ps[self.piece_idx as int], table.original@.len(), table.adds@.len()));
            lemma_elem_at(table.original@, table.adds@, ps, self.piece_idx as int, self.offset as int);
            lemma_offset_step(ps, self.piece_idx as int);
        }
        let buf = table.get_buffer(&piece);
        let item = &buf[piece.start + self.offset];
        if self.offset + 1 == piece.length {
            self.piece_idx = self.piece_idx + 1;
            self.offset = 0;
        } else {
            self.offset = self.offset + 1;
        }
        proof {
            assert(self.position() == pos + 1);
            assert(self.remaining() =~= old(self).remaining().drop_first());
        }
        Some(item)
    }
}

impl<'a, T: 'a> Range<'a, T> {
    /// The elements still to come, in order.
    pub closed spec fn remaining(&self) -> Seq<T> {
        self.iter.remaining().take(self.to - self.idx)
    }

    /// `idx` counts up to `to`, and the range does not run past the end.
    pub closed spec fn wf(&self) -> bool {
        &&& self.iter.wf()
        &&& self.idx <= self.to
        &&& self.to - self.idx <= self.iter.remaining().len()
    }

    /// The next element of the range, if any is left.
    pub fn next(&mut self) -> (r: Option<&'a T>)
        requires
            old(self).wf(),
        ensures
            final(self).wf(),
            match r {
                Some(x) => {
                    &&& old(self).remaining().len() > 0
                    &&& *x == old(self).remaining()[0]
                    &&& final(self).remaining() == old(self).remaining().drop_first()
                },
                None => {
                    &&& old(self).remaining().len() == 0
                    &&& final(self).remaining() == old(self).remaining()
                },
            },
    {
        if self.idx >= self.to {
            None
        } else {
            self.idx = self.idx + 1;
            let r = self.iter.next();
            proof {
                assert(self.remaining() =~= old(self).remaining().drop_first());
            }
            r
        }
    }
}

impl<'a, T: 'a> PieceTable<'a, T> {
    /// An iterator that starts at logical index `idx`.
    fn make_iter(&'a self, idx: usize) -> (r: Iter<'a, T>)
        requires
            self.wf(),
        ensures
            r.wf(),
            idx <= self@.len() ==> r.remaining() == self@.skip(idx as int),
            idx >= self@.len() ==> r.remaining().len() == 0,
    {
        proof {
            self.lemma_reveal();
        }
        let (piece_idx, norm_idx) = match self.idx_to_location(idx) {
            Location::PieceHead(p) => (p, 0),
            Location::PieceMid(p, d) => (p, d),
            Location::PieceTail(p, d) => (p, d),
            Location::EOF => {
                proof {
                    assert(self.pieces@.take(self.pieces@.len() as int) =~= self.pieces@);
                }
                return Iter { table: self, piece_idx: self.pieces.len(), offset: 0 };
            },
        };
        proof {
            assert(piece_fits(self.pieces@[piece_idx as int], self.original@.len(), self.adds@.len()));
        }
        Iter { table: self, piece_idx: piece_idx, offset: norm_idx }
    }

    /// An iterator over all elements, in order.
    pub fn iter(&'a self) -> (r: Iter<'a, T>)
        requires
            self.wf(),
        ensures
            r.wf(),
            r.remaining() == self@,
    {
        let r = self.make_iter(0);
        proof {
            assert(self@.skip(0) =~= self@);
        }
        r
    }

    /// An iterator over the elements at the indices that `min` and `max` admit.
    pub fn range(&'a self, min: Bound<usize>, max: Bound<usize>) -> (r: Range<'a, T>)
        requires
            self.wf(),
            start_index(min) <= end_index(max, self@.len() as int) <= self@.len(),
        ensures
            r.wf(),
            r.remaining() == self@.subrange(start_index(min), end_index(max, self@.len() as int)),
    {
        let len = self.len();
        let from = match min {
            Bound::Included(x) => x,
            Bound::Excluded(x) => x + 1,
            Bound::Unbounded => 0,
        };
        let to = match max {
            Bound::Included(x) => x + 1,
            Bound::Excluded(x) => x,
            Bound::Unbounded => len,
        };
        let iter = self.make_iter(from);
        let r = Range { iter: iter, idx: from, to: to };
        proof {
            assert(r.remaining() =~= self@.subrange(from as int, to as int));
        }
        r
    }
}

} // verus!
