//! The piece table itself: buffers, piece descriptors, and the edit operations.
use vstd::prelude::*;

use crate::piece::{
    add_tail_at, all_fit, buffer_of, grown, splices_in, lemma_fit_sub, lemma_splice_replace, lemma_spliced_at,
    lemma_spliced_frame, lemma_spliced_len, lemma_spliced_one, piece_elems,
    piece_fits, piece_offset, spliced, total_length, Buffer, Piece,
};
use crate::splice::{
    added_piece, adds_end_before, lemma_insert_before, lemma_insert_extend, lemma_insert_split,
    lemma_remove_first_of, lemma_remove_last_of, lemma_remove_piece, lemma_remove_split,
    lemma_undo_drop, lemma_undo_shrink, without_last,
};

verus! {

/// Where a logical index falls relative to the piece table.
#[derive(Debug, Clone, Copy, PartialEq, Eq, Hash)]
pub(crate) enum Location {
    /// The first element of a piece.
    PieceHead(usize),
    /// Strictly inside a piece, at the given offset.
    PieceMid(usize, usize),
    /// The last element of a piece longer than one.
    PieceTail(usize, usize),
    /// One past the last element.
    EOF,
}

/// `loc` names position `idx` of the sequence that the pieces `ps` describe.
pub(crate) open spec fn loc_at(ps: Seq<Piece>, loc: Location, idx: int) -> bool {
    match loc {
        Location::PieceHead(p) => p < ps.len() && piece_offset(ps, p as int) == idx,
        Location::PieceMid(p, d) => {
            &&& p < ps.len()
            &&& 0 < d
            &&& d + 1 < ps[p as int].length
            &&& piece_offset(ps, p as int) + d == idx
        },
        Location::PieceTail(p, d) => {
            &&& p < ps.len()
            &&& 0 < d
            &&& d + 1 == ps[p as int].length
            &&& piece_offset(ps, p as int) + d == idx
        },
        Location::EOF => idx == total_length(ps),
    }
}

/// A sequence of elements stored as pieces of a borrowed source and an append-only add buffer.
#[derive(Debug, Clone, Hash)]
pub struct PieceTable<'a, T: 'a> {
    /// The borrowed source; never written.
    pub(crate) original: &'a [T],
    /// Every element ever inserted, in the order of insertion.
    pub(crate) adds: Vec<T>,
    /// The pieces, in logical order.
    pub(crate) pieces: Vec<Piece>,
    /// The index that the last insertion or removal touched.
    pub(crate) last_idx: usize,
    /// The number of elements.
    pub(crate) length: usize,
    /// A piece that the next insertion right after `last_idx` can extend, and whether the
    /// last edit there was an insertion (rather than taking one back).
    pub(crate) reusable_insert: Option<(usize, bool)>,
    /// The location of the element before `last_idx`, for a removal that sweeps backwards.
    pub(crate) reusable_remove: Option<Location>,
}

impl<'a, T> View for PieceTable<'a, T> {
    type V = Seq<T>;

    /// The logical sequence of elements.
    closed spec fn view(&self) -> Seq<T> {
        spliced(self.original@, self.adds@, self.pieces@)
    }
}

impl<'a, T: 'a> PieceTable<'a, T> {
    /// The borrowed source.
    pub closed spec fn source_view(&self) -> Seq<T> {
        self.original@
    }

    /// The add buffer, including elements that no piece refers to any more.
    pub closed spec fn add_view(&self) -> Seq<T> {
        self.adds@
    }

    /// The piece descriptors, in logical order.
    pub closed spec fn piece_view(&self) -> Seq<Piece> {
        self.pieces@
    }

    /// The insertion hint: a piece that the next insertion can extend, and whether the last
    /// edit there was an insertion (rather than taking one back).
    pub closed spec fn insert_hint(&self) -> Option<(usize, bool)> {
        self.reusable_insert
    }

    /// Whether a location is kept for a removal just before the last one.
    pub closed spec fn has_remove_hint(&self) -> bool {
        self.reusable_remove is Some
    }

    /// The index that the last insertion or removal touched.
    pub closed spec fn last_index(&self) -> nat {
        self.last_idx as nat
    }

    /// Neither fast-path hint is set.
    pub open spec fn hints_cleared(&self) -> bool {
        &&& self.insert_hint() is None
        &&& !self.has_remove_hint()
    }

    /// The piece that the insertion hint names.
    pub open spec fn hinted_piece(&self) -> int {
        match self.insert_hint() {
            Some((p, _)) => p as int,
            None => 0,
        }
    }

    /// An insertion at `idx` extends the hinted piece: right after an insertion at `idx - 1`,
    /// or right after the element inserted at `idx` was taken back.
    pub open spec fn insert_hint_applies(&self, idx: int) -> bool {
        match self.insert_hint() {
            Some((_, inserted)) => (inserted && idx == self.last_index() + 1) || (!inserted && idx
                == self.last_index()),
            None => false,
        }
    }

    /// A removal at `idx` takes back the element last inserted: the one at `idx` after an
    /// insertion at `idx`, or the one before after an insertion at `idx + 1` was taken back.
    pub open spec fn undo_applies(&self, idx: int) -> bool {
        match self.insert_hint() {
            Some((_, inserted)) => (!inserted && idx + 1 == self.last_index()) || (inserted && idx
                == self.last_index()),
            None => false,
        }
    }

    /// Every piece is live, and the cached length is the sum of their lengths.
    pub(crate) closed spec fn core_wf(&self) -> bool {
        &&& all_fit(self.pieces@, self.original@.len(), self.adds@.len())
        &&& self.length == total_length(self.pieces@)
        &&& self.original@.len() <= usize::MAX
        &&& self.adds@.len() <= usize::MAX
    }

    /// Piece `p` ends at the end of the add buffer, every other add-piece lies before it, and
    /// its last element stands at logical index `last`.
    pub(crate) closed spec fn owns_add_tail(&self, p: int, last: int) -> bool {
        let ps = self.pieces@;
        &&& 0 <= p < ps.len()
        &&& ps[p].buffer == Buffer::Add
        &&& ps[p].start + ps[p].length == self.adds@.len()
        &&& adds_end_before(ps, p, ps[p].start as nat)
        &&& piece_offset(ps, p) + ps[p].length == last + 1
    }

    /// The insertion hint names the piece that ends at `last_idx` after an insertion, or just
    /// before it after an insertion was taken back.
    pub(crate) closed spec fn insert_hint_ok(&self) -> bool {
        match self.reusable_insert {
            None => true,
            Some((p, inserted)) => if inserted {
                self.owns_add_tail(p as int, self.last_idx as int)
            } else {
                self.owns_add_tail(p as int, self.last_idx - 1)
            },
        }
    }

    /// The removal hint names the position just before `last_idx`.
    pub(crate) closed spec fn remove_hint_ok(&self) -> bool {
        match self.reusable_remove {
            None => true,
            Some(loc) => {
                &&& self.last_idx >= 1
                &&& loc != Location::EOF
                &&& loc_at(self.pieces@, loc, self.last_idx - 1)
            },
        }
    }

    /// The invariant that every operation preserves.
    pub closed spec fn wf(&self) -> bool {
        &&& self.core_wf()
        &&& self.last_idx <= self.length
        &&& self.insert_hint_ok()
        &&& self.remove_hint_ok()
    }

    /// What the invariant says of the buffers and pieces, for the iterators.
    pub(crate) proof fn lemma_reveal(&self)
        requires
            self.wf(),
        ensures
            all_fit(self.pieces@, self.original@.len(), self.adds@.len()),
            self.length == total_length(self.pieces@),
            self@ == spliced(self.original@, self.adds@, self.pieces@),
            self@.len() == total_length(self.pieces@),
    {
        lemma_spliced_len(self.original@, self.adds@, self.pieces@);
    }

    /// Of a well-formed table: every piece is non-empty and lies inside the buffer it selects,
    /// the lengths of the pieces add up to the number of elements, and the elements are the
    /// projections of the pieces, concatenated in order.
    pub proof fn lemma_pieces_sound(&self)
        requires
            self.wf(),
        ensures
            all_fit(self.piece_view(), self.source_view().len(), self.add_view().len()),
            total_length(self.piece_view()) == self@.len(),
            self@ == spliced(self.source_view(), self.add_view(), self.piece_view()),
    {
        lemma_spliced_len(self.original@, self.adds@, self.pieces@);
    }

    /// An empty table without a source.
    pub fn new() -> (r: PieceTable<'a, T>)
        ensures
            r.wf(),
            r@ == Seq::<T>::empty(),
            r.source_view() == Seq::<T>::empty(),
            r.add_view() == Seq::<T>::empty(),
            r.piece_view() == Seq::<Piece>::empty(),
            r.hints_cleared(),
            r.last_index() == 0,
    {
        PieceTable {
            original: &[],
            adds: Vec::new(),
            pieces: Vec::new(),
            last_idx: 0,
            length: 0,
            reusable_insert: None,
            reusable_remove: None,
        }
    }

    /// An empty table with room reserved for `data_capacity` added elements and
    /// `piece_capacity` pieces.
    pub fn with_capacity(data_capacity: usize, piece_capacity: usize) -> (r: PieceTable<'a, T>)
        ensures
            r.wf(),
            r@ == Seq::<T>::empty(),
            r.source_view() == Seq::<T>::empty(),
            r.add_view() == Seq::<T>::empty(),
            r.piece_view() == Seq::<Piece>::empty(),
            r.hints_cleared(),
            r.last_index() == 0,
    {
        PieceTable {
            original: &[],
            adds: Vec::with_capacity(data_capacity),
            pieces: Vec::with_capacity(piece_capacity),
            last_idx: 0,
            length: 0,
            reusable_insert: None,
            reusable_remove: None,
        }
    }

    /// Makes `src` the source: the table then holds exactly the elements of `src`.
    pub fn src(self, src: &'a [T]) -> (r: PieceTable<'a, T>)
        requires
            self.wf(),
        ensures
            r.wf(),
            r@ == src@,
            r.source_view() == src@,
            r.add_view() == self.add_view(),
            r.piece_view() == if src@.len() > 0 {
                seq![Piece { start: 0, length: src@.len() as usize, buffer: Buffer::Original }]
            } else {
                Seq::<Piece>::empty()
            },
            r.hints_cleared(),
            r.last_index() == 0,
    {
        let mut table = self;
        let mut pieces: Vec<Piece> = Vec::new();
        if src.len() > 0 {
            pieces.push(Piece { start: 0, length: src.len(), buffer: Buffer::Original });
        }
        table.original = src;
        table.pieces = pieces;
        table.length = src.len();
        table.last_idx = 0;
        table.reusable_insert = None;
        table.reusable_remove = None;
        proof {
            let ps = table.pieces@;
            if src@.len() > 0 {
                lemma_spliced_one(src@, table.adds@, ps[0]);
                assert(ps =~= seq![ps[0]]);
                assert(piece_elems(src@, table.adds@, ps[0]) =~= src@);
            }
        }
        table
    }

    /// The number of elements.
    pub fn len(&self) -> (r: usize)
        requires
            self.wf(),
        ensures
            r == self@.len(),
    {
        proof {
            lemma_spliced_len(self.original@, self.adds@, self.pieces@);
        }
        self.length
    }

    /// Whether the table holds no element.
    pub fn is_empty(&self) -> (r: bool)
        requires
            self.wf(),
        ensures
            r == (self@.len() == 0),
    {
        proof {
            lemma_spliced_len(self.original@, self.adds@, self.pieces@);
        }
        self.length == 0
    }

    /// The number of pieces.
    pub fn piece_count(&self) -> (r: usize)
        ensures
            r == self.piece_view().len(),
    {
        self.pieces.len()
    }

    /// The number of elements in the add buffer.
    pub fn add_buffer_len(&self) -> (r: usize)
        ensures
            r == self.add_view().len(),
    {
        self.adds.len()
    }

    /// Resolves a logical index to the piece that holds it.
    pub(crate) fn idx_to_location(&self, idx: usize) -> (r: Location)
        requires
            all_fit(self.pieces@, self.original@.len(), self.adds@.len()),
            self.length == total_length(self.pieces@),
        ensures
            idx < self.length ==> r != Location::EOF && loc_at(self.pieces@, r, idx as int),
            idx >= self.length ==> r == Location::EOF,
    {
        let ghost ps = self.pieces@;
        let mut offset: usize = 0;
        let mut i: usize = 0;
        while i < self.pieces.len()
            invariant
                all_fit(ps, self.original@.len(), self.adds@.len()),
                self.length == total_length(ps),
                ps == self.pieces@,
                0 <= i <= ps.len(),
                offset == piece_offset(ps, i as int),
                offset <= idx,
            decreases ps.len() - i,
        {
            let piece = self.pieces[i];
            proof {
                lemma_offset_step(ps, i as int);
                lemma_offset_bound(ps, i as int);
                assert(piece_fits(ps[i as int], self.original@.len(), self.adds@.len()));
            }
            if idx < offset + piece.length {
                let delta = idx - offset;
                if delta == 0 {
                    return Location::PieceHead(i);
                } else if delta == piece.length - 1 {
                    return Location::PieceTail(i, delta);
                } else {
                    return Location::PieceMid(i, delta);
                }
            }
            offset = offset + piece.length;
            i = i + 1;
        }
        proof {
            assert(ps.take(ps.len() as int) =~= ps);
        }
        Location::EOF
    }

    /// Inserts `item` at `idx`; the elements from `idx` on move one place to the right.
    ///
    /// Right after an insertion at `i`, an insertion at `i + 1` extends the same piece in
    /// constant time.
    pub fn insert(&mut self, idx: usize, item: T)
        requires
            old(self).wf(),
            idx <= old(self)@.len(),
            old(self)@.len() < usize::MAX,
        ensures
            final(self).wf(),
            final(self)@ == old(self)@.insert(idx as int, item),
            final(self).source_view() == old(self).source_view(),
            final(self).add_view() == old(self).add_view().push(item),
            final(self).last_index() == idx,
            !final(self).has_remove_hint(),
            final(self).insert_hint() matches Some((p, inserted)) && inserted && add_tail_at(
                final(self).piece_view(),
                final(self).add_view().len(),
                p as int,
                idx as int,
            ),
            old(self).insert_hint_applies(idx as int) ==> {
                &&& final(self).piece_view() == old(self).piece_view().update(
                    old(self).hinted_piece(),
                    grown(old(self).piece_view()[old(self).hinted_piece()]),
                )
                &&& final(self).hinted_piece() == old(self).hinted_piece()
            },
            !old(self).insert_hint_applies(idx as int) ==> {
                &&& splices_in(
                    old(self).piece_view(),
                    final(self).piece_view(),
                    idx as int,
                    added_piece(old(self).add_view().len()),
                )
                &&& final(self).piece_view()[final(self).hinted_piece()] == added_piece(
                    old(self).add_view().len(),
                )
            },
            final(self).piece_view().len() <= old(self).piece_view().len() + 2,
    {
        proof {
            lemma_spliced_len(self.original@, self.adds@, self.pieces@);
        }
        match self.reusable_insert {
            Some((piece_idx, inserted)) if (inserted && idx == self.last_idx + 1) || (!inserted
                && idx == self.last_idx) => {
                let ghost ps = self.pieces@;
                let ghost ad0 = self.adds@;
                let piece = self.pieces[piece_idx];
                self.adds.push(item);
                let grown = Piece {
                    start: piece.start,
                    length: self.adds.len() - piece.start,
                    buffer: piece.buffer,
                };
                proof {
                    lemma_insert_extend(self.original@, ad0, item, ps, piece_idx as int);
                }
                self.pieces.set(piece_idx, grown);
                self.reusable_insert = Some((piece_idx, true));
                proof {
                    let ns = self.pieces@;
                    assert(forall|q: int| 0 <= q < ns.len() && q != piece_idx ==> ns[q] == ps[q]);
                }
            },
            _ => self.raw_insert(idx, item),
        }
        self.reusable_remove = None;
        self.last_idx = idx;
        self.length = self.length + 1;
    }

    /// Inserts `item` at `idx` by resolving `idx` to a piece and splitting it where needed.
    fn raw_insert(&mut self, idx: usize, item: T)
        requires
            old(self).core_wf(),
            idx <= old(self).length,
        ensures
            final(self).original@ == old(self).original@,
            final(self).adds@ == old(self).adds@.push(item),
            final(self).adds@.len() <= usize::MAX,
            final(self).last_idx == old(self).last_idx,
            final(self).length == old(self).length,
            final(self).reusable_remove == old(self).reusable_remove,
            all_fit(final(self).pieces@, final(self).original@.len(), final(self).adds@.len()),
            total_length(final(self).pieces@) == old(self).length + 1,
            final(self)@ == old(self)@.insert(idx as int, item),
            final(self).reusable_insert matches Some((q, inserted)) && inserted
                && final(self).owns_add_tail(q as int, idx as int) && final(self).pieces@[q as int]
                == added_piece(old(self).adds@.len()),
            splices_in(old(self).pieces@, final(self).pieces@, idx as int, added_piece(old(self).adds@.len())),
            final(self).pieces@.len() <= old(self).pieces@.len() + 2,
    {
        let ghost o = self.original@;
        let ghost ad0 = self.adds@;
        let ghost ps = self.pieces@;
        self.adds.push(item);
        let item_idx = self.adds.len() - 1;
        let added = Piece { start: item_idx, length: 1, buffer: Buffer::Add };
        match self.idx_to_location(idx) {
            Location::PieceHead(piece_idx) => {
                proof {
                    let p = piece_idx as int;
                    lemma_insert_before(o, ad0, item, ps, p);
                }
                self.pieces.insert(piece_idx, added);
                self.reusable_insert = Some((piece_idx, true));
            },
            Location::PieceMid(piece_idx, norm_idx) | Location::PieceTail(piece_idx, norm_idx) => {
                proof {
                    lemma_count_le_total(ps, o.len(), ad0.len());
                    lemma_insert_split(o, ad0, item, ps, piece_idx as int, norm_idx as int);
                }
                let orig = self.pieces[piece_idx];
                let left = Piece { start: orig.start, length: norm_idx, buffer: orig.buffer };
                let right = Piece {
                    start: orig.start + norm_idx,
                    length: orig.length - norm_idx,
                    buffer: orig.buffer,
                };
                self.pieces.set(piece_idx, left);
                push_all_at(&mut self.pieces, piece_idx + 1, &[added, right]);
                self.reusable_insert = Some((piece_idx + 1, true));
                proof {
                    let p = piece_idx as int;
                    let d = norm_idx as int;
                    assert(self.pieces@ =~= ps.take(p) + seq![left, added, right] + ps.skip(p + 1));
                }
            },
            Location::EOF => {
                let piece_idx = self.pieces.len();
                proof {
                    lemma_insert_before(o, ad0, item, ps, piece_idx as int);
                    assert(ps.take(piece_idx as int) =~= ps);
                }
                self.pieces.push(added);
                self.reusable_insert = Some((piece_idx, true));
                proof {
                    assert(self.pieces@ =~= ps.insert(piece_idx as int, added));
                }
            },
        }
    }

    /// Removes the element at `idx`; the elements after it move one place to the left.
    ///
    /// Removing the element just inserted takes it back from the add buffer, and after a
    /// removal at `i` a removal at `i - 1` starts from a location worked out in advance.
    pub fn remove(&mut self, idx: usize)
        requires
            old(self).wf(),
            idx < old(self)@.len(),
        ensures
            final(self).wf(),
            final(self)@ == old(self)@.remove(idx as int),
            final(self).source_view() == old(self).source_view(),
            final(self).last_index() == idx,
            final(self).piece_view().len() <= old(self).piece_view().len() + 1,
            ({
                let ps = old(self).piece_view();
                let p = old(self).hinted_piece();
                if old(self).undo_applies(idx as int) {
                    &&& final(self).add_view() == old(self).add_view().drop_last()
                    &&& if ps[p].length == 1 {
                        &&& final(self).piece_view() == ps.remove(p)
                        &&& final(self).insert_hint() is None
                        &&& final(self).has_remove_hint() == (idx > 0)
                    } else {
                        &&& final(self).piece_view() == ps.update(p, without_last(ps[p]))
                        &&& final(self).insert_hint() == Some((p as usize, false))
                        &&& !final(self).has_remove_hint()
                    }
                } else {
                    &&& final(self).add_view() == old(self).add_view()
                    &&& final(self).insert_hint() is None
                    &&& final(self).has_remove_hint() == (idx > 0)
                }
            }),
    {
        proof {
            lemma_spliced_len(self.original@, self.adds@, self.pieces@);
        }
        match self.reusable_insert {
            Some((piece_idx, inserted)) if (!inserted && idx + 1 == self.last_idx) || (inserted
                && idx == self.last_idx) => {
                let ghost o = self.original@;
                let ghost ad0 = self.adds@;
                let ghost ps = self.pieces@;
                let piece = self.pieces[piece_idx];
                self.adds.pop();
                self.reusable_remove = None;
                if piece.length == 1 {
                    proof {
                        lemma_undo_drop(o, ad0, ps, piece_idx as int);
                    }
                    self.pieces.remove(piece_idx);
                    self.reusable_insert = None;
                    if piece_idx > 0 {
                        let loc = self.last_of_piece(piece_idx - 1);
                        self.reusable_remove = Some(loc);
                        proof {
                            lemma_offset_step(self.pieces@, piece_idx - 1);
                        }
                    }
                } else {
                    proof {
                        lemma_undo_shrink(o, ad0, ps, piece_idx as int);
                    }
                    self.pieces.set(
                        piece_idx,
                        Piece { start: piece.start, length: piece.length - 1, buffer: piece.buffer },
                    );
                    self.reusable_insert = Some((piece_idx, false));
                }
            },
            _ => {
                let location = match self.reusable_remove {
                    Some(loc) if idx + 1 == self.last_idx => loc,
                    _ => self.idx_to_location(idx),
                };
                self.raw_remove(location, Ghost(idx as int));
                self.reusable_insert = None;
            },
        }
        self.last_idx = idx;
        self.length = self.length - 1;
    }

    /// The location of the last element of piece `p`.
    fn last_of_piece(&self, p: usize) -> (r: Location)
        requires
            all_fit(self.pieces@, self.original@.len(), self.adds@.len()),
            p < self.pieces@.len(),
        ensures
            r != Location::EOF,
            loc_at(self.pieces@, r, piece_offset(self.pieces@, p as int) + self.pieces@[p as int].length - 1),
    {
        let len = self.pieces[p].length;
        proof {
            assert(piece_fits(self.pieces@[p as int], self.original@.len(), self.adds@.len()));
        }
        if len == 1 {
            Location::PieceHead(p)
        } else {
            Location::PieceTail(p, len - 1)
        }
    }

    /// Removes the element at `location`, which names logical index `idx`, and works out the
    /// location of the element before it for a following removal.
    fn raw_remove(&mut self, location: Location, Ghost(idx): Ghost<int>)
        requires
            old(self).core_wf(),
            location != Location::EOF,
            loc_at(old(self).pieces@, location, idx),
            0 <= idx < old(self).length,
        ensures
            final(self).original@ == old(self).original@,
            final(self).adds@ == old(self).adds@,
            final(self).last_idx == old(self).last_idx,
            final(self).length == old(self).length,
            final(self).reusable_insert == old(self).reusable_insert,
            all_fit(final(self).pieces@, final(self).original@.len(), final(self).adds@.len()),
            total_length(final(self).pieces@) + 1 == old(self).length,
            final(self)@ == old(self)@.remove(idx),
            match final(self).reusable_remove {
                Some(loc) => idx >= 1 && loc != Location::EOF && loc_at(final(self).pieces@, loc, idx - 1),
                None => true,
            },
            final(self).reusable_remove is Some <==> idx > 0,
            final(self).pieces@.len() <= old(self).pieces@.len() + 1,
    {
        let ghost o = self.original@;
        let ghost ad = self.adds@;
        let ghost ps = self.pieces@;
        self.reusable_remove = None;
        match location {
            Location::PieceHead(piece_idx) => {
                let piece = self.pieces[piece_idx];
                proof {
                    assert(piece_fits(ps[piece_idx as int], o.len(), ad.len()));
                }
                if piece.length == 1 {
                    proof {
                        lemma_remove_piece(o, ad, ps, piece_idx as int);
                    }
                    self.pieces.remove(piece_idx);
                } else {
                    proof {
                        lemma_remove_first_of(o, ad, ps, piece_idx as int);
                    }
                    self.pieces.set(
                        piece_idx,
                        Piece {
                            start: piece.start + 1,
                            length: piece.length - 1,
                            buffer: piece.buffer,
                        },
                    );
                }
                if piece_idx > 0 {
                    let loc = self.last_of_piece(piece_idx - 1);
                    self.reusable_remove = Some(loc);
                    proof {
                        lemma_offset_step(self.pieces@, piece_idx - 1);
                    }
                }
            },
            Location::PieceTail(piece_idx, norm_idx) => {
                let piece = self.pieces[piece_idx];
                proof {
                    lemma_remove_last_of(o, ad, ps, piece_idx as int);
                }
                self.pieces.set(
                    piece_idx,
                    Piece { start: piece.start, length: piece.length - 1, buffer: piece.buffer },
                );
                let loc = if norm_idx - 1 == 0 {
                    Location::PieceHead(piece_idx)
                } else {
                    Location::PieceTail(piece_idx, norm_idx - 1)
                };
                self.reusable_remove = Some(loc);
            },
            Location::PieceMid(piece_idx, norm_idx) => {
                let piece = self.pieces[piece_idx];
                proof {
                    assert(piece_fits(ps[piece_idx as int], o.len(), ad.len()));
                    lemma_remove_split(o, ad, ps, piece_idx as int, norm_idx as int);
                    lemma_count_le_total(ps, o.len(), ad.len());
                }
                let left = Piece { start: piece.start, length: norm_idx, buffer: piece.buffer };
                let right = Piece {
                    start: piece.start + norm_idx + 1,
                    length: piece.length - norm_idx - 1,
                    buffer: piece.buffer,
                };
                self.pieces.set(piece_idx, left);
                self.pieces.insert(piece_idx + 1, right);
                proof {
                    let p = piece_idx as int;
                    assert(self.pieces@ =~= ps.take(p) + seq![left, right] + ps.skip(p + 1));
                }
                let loc = if norm_idx - 1 == 0 {
                    Location::PieceHead(piece_idx)
                } else {
                    Location::PieceTail(piece_idx, norm_idx - 1)
                };
                self.reusable_remove = Some(loc);
            },
            Location::EOF => {},
        }
    }

    /// Appends `value` at the end, extending the last piece when it ends at the end of the add
    /// buffer.
    pub fn push(&mut self, value: T)
        requires
            old(self).wf(),
            old(self)@.len() < usize::MAX,
        ensures
            final(self).wf(),
            final(self)@ == old(self)@.push(value),
            final(self).source_view() == old(self).source_view(),
            final(self).add_view() == old(self).add_view().push(value),
            ({
                let ps = old(self).piece_view();
                let n = old(self).add_view().len();
                if ps.len() > 0 && ps.last().buffer == Buffer::Add && ps.last().start
                    + ps.last().length == n {
                    final(self).piece_view() == ps.update(ps.len() - 1, grown(ps.last()))
                } else {
                    final(self).piece_view() == ps.push(added_piece(n))
                }
            }),
            final(self).hints_cleared(),
            final(self).last_index() == old(self).last_index(),
    {
        let ghost o = self.original@;
        let ghost ad0 = self.adds@;
        let ghost ps = self.pieces@;
        proof {
            lemma_spliced_len(o, ad0, ps);
        }
        let n = self.pieces.len();
        let reuse = if n > 0 {
            let last = self.pieces[n - 1];
            match last.buffer {
                Buffer::Add => last.start + last.length == self.adds.len(),
                Buffer::Original => false,
            }
        } else {
            false
        };
        self.adds.push(value);
        let add_len = self.adds.len();
        if reuse {
            let last = self.pieces[n - 1];
            proof {
                lemma_insert_extend(o, ad0, value, ps, n - 1);
                lemma_spliced_at(o, ad0, ps, n - 1);
            }
            self.pieces.set(
                n - 1,
                Piece { start: last.start, length: add_len - last.start, buffer: Buffer::Add },
            );
        } else {
            proof {
                lemma_insert_before(o, ad0, value, ps, n as int);
                assert(ps.take(n as int) =~= ps);
            }
            self.pieces.push(Piece { start: add_len - 1, length: 1, buffer: Buffer::Add });
            proof {
                assert(self.pieces@ =~= ps.insert(n as int, added_piece(ad0.len())));
            }
        }
        self.length = self.length + 1;
        self.reusable_insert = None;
        self.reusable_remove = None;
        proof {
            assert(self@ =~= old(self)@.push(value));
        }
    }

    /// Appends all of `items` at the end, as one new piece.
    pub fn extend(&mut self, items: Vec<T>)
        requires
            old(self).wf(),
            old(self)@.len() + items@.len() <= usize::MAX,
        ensures
            final(self).wf(),
            final(self)@ == old(self)@ + items@,
            final(self).source_view() == old(self).source_view(),
            final(self).add_view() == old(self).add_view() + items@,
            final(self).piece_view() == if items@.len() > 0 {
                old(self).piece_view().push(
                    Piece {
                        start: old(self).add_view().len() as usize,
                        length: items@.len() as usize,
                        buffer: Buffer::Add,
                    },
                )
            } else {
                old(self).piece_view()
            },
            final(self).hints_cleared(),
            final(self).last_index() == old(self).last_index(),
    {
        let ghost o = self.original@;
        let ghost ad0 = self.adds@;
        let ghost ps = self.pieces@;
        proof {
            lemma_spliced_len(o, ad0, ps);
        }
        let ghost added = items@;
        let mut items = items;
        let start = self.adds.len();
        self.adds.append(&mut items);
        let length = self.adds.len() - start;
        let ghost ad = self.adds@;
        proof {
            assert(ad.take(ad0.len() as int) =~= ad0);
            lemma_spliced_frame(o, ad0, ad, ps);
            lemma_fit_sub(ps, 0, ps.len() as int, o.len(), ad0.len(), ad.len());
            assert(ps.subrange(0, ps.len() as int) =~= ps);
        }
        if length > 0 {
            let piece = Piece { start: start, length: length, buffer: Buffer::Add };
            self.pieces.push(piece);
            proof {
                lemma_splice_replace(o, ad, ps, ps.len() as int, ps.len() as int, seq![piece]);
                assert(self.pieces@ =~= ps.take(ps.len() as int) + seq![piece] + ps.skip(
                    ps.len() as int,
                ));
                assert(ps.take(ps.len() as int) =~= ps);
                assert(ps.subrange(ps.len() as int, ps.len() as int) =~= Seq::<Piece>::empty());
                assert(spliced(o, ad, Seq::<Piece>::empty()) =~= Seq::<T>::empty());
                lemma_spliced_one(o, ad, piece);
                assert(piece_elems(o, ad, piece) =~= added);
            }
        }
        self.length = self.length + length;
        self.reusable_insert = None;
        self.reusable_remove = None;
        proof {
            assert(self@ =~= old(self)@ + added);
        }
    }

    /// A table whose elements are `items`, held in the add buffer as one piece.
    pub fn from_vec(items: Vec<T>) -> (r: PieceTable<'a, T>)
        ensures
            r.wf(),
            r@ == items@,
            r.source_view() == Seq::<T>::empty(),
            r.add_view() == items@,
            r.piece_view() == if items@.len() > 0 {
                seq![Piece { start: 0, length: items@.len() as usize, buffer: Buffer::Add }]
            } else {
                Seq::<Piece>::empty()
            },
            r.hints_cleared(),
            r.last_index() == 0,
    {
        let mut table = PieceTable::new();
        let length = items.len();
        table.adds = items;
        if length > 0 {
            let piece = Piece { start: 0, length: length, buffer: Buffer::Add };
            table.pieces.push(piece);
            proof {
                lemma_spliced_one(table.original@, table.adds@, piece);
                assert(table.pieces@ =~= seq![piece]);
                assert(piece_elems(table.original@, table.adds@, piece) =~= table.adds@);
            }
        }
        table.length = length;
        table
    }

    /// Removes every element and lets go of the source.
    pub fn clear(&mut self)
        ensures
            final(self).wf(),
            final(self)@ == Seq::<T>::empty(),
            final(self).source_view() == Seq::<T>::empty(),
            final(self).add_view() == Seq::<T>::empty(),
            final(self).piece_view() == Seq::<Piece>::empty(),
            final(self).hints_cleared(),
            final(self).last_index() == 0,
    {
        self.original = &[];
        self.adds.clear();
        self.pieces.clear();
        self.length = 0;
        self.last_idx = 0;
        self.reusable_insert = None;
        self.reusable_remove = None;
    }

    /// How many elements the add buffer can hold without reallocating.
    pub fn capacity_data(&self) -> (r: usize)
        ensures
            r >= self.add_view().len(),
    {
        vec_capacity(&self.adds)
    }

    /// How many pieces the piece table can hold without reallocating.
    pub fn capacity_pieces(&self) -> (r: usize)
        ensures
            r >= self.piece_view().len(),
    {
        vec_capacity(&self.pieces)
    }

    /// Reserves room for at least `additional` more added elements; the contents stay as
    /// they are.
    pub fn reserve_data(&mut self, additional: usize)
        requires
            old(self).wf(),
        ensures
            final(self).wf(),
            final(self)@ == old(self)@,
            final(self).source_view() == old(self).source_view(),
            final(self).add_view() == old(self).add_view(),
            final(self).piece_view() == old(self).piece_view(),
    {
        self.adds.reserve(additional);
    }

    /// Reserves room for at least `additional` more pieces; the contents stay as they are.
    pub fn reserve_piece(&mut self, additional: usize)
        requires
            old(self).wf(),
        ensures
            final(self).wf(),
            final(self)@ == old(self)@,
            final(self).source_view() == old(self).source_view(),
            final(self).add_view() == old(self).add_view(),
            final(self).piece_view() == old(self).piece_view(),
    {
        self.pieces.reserve(additional);
    }

    /// The buffer that a piece projects into.
    pub(crate) fn get_buffer<'b>(&'b self, piece: &Piece) -> (r: &'b [T])
        ensures
            r@ == buffer_of(self.original@, self.adds@, piece.buffer),
            r@.len() <= usize::MAX,
    {
        let buf = match piece.buffer {
            Buffer::Add => self.adds.as_slice(),
            Buffer::Original => self.original,
        };
        // Asking for the length brings in that it fits in `usize`.
        let _ = buf.len();
        buf
    }

    /// The element at `idx`.
    pub fn index(&self, idx: usize) -> (r: &T)
        requires
            self.wf(),
            idx < self@.len(),
        ensures
            *r == self@[idx as int],
    {
        proof {
            lemma_spliced_len(self.original@, self.adds@, self.pieces@);
        }
        let loc = self.idx_to_location(idx);
        let (piece_idx, norm_idx) = match loc {
            Location::PieceHead(p) => (p, 0),
            Location::PieceMid(p, d) => (p, d),
            Location::PieceTail(p, d) => (p, d),
            Location::EOF => (0, 0),
        };
        let piece = self.pieces[piece_idx];
        proof {
            assert(piece_fits(self.pieces@[piece_idx as int], self.original@.len(), self.adds@.len()));
            lemma_elem_at(self.original@, self.adds@, self.pieces@, piece_idx as int, norm_idx as int);
        }
        let buf = self.get_buffer(&piece);
        &buf[piece.start + norm_idx]
    }
}

/// Live pieces are at least as many elements as there are pieces.
pub(crate) proof fn lemma_count_le_total(ps: Seq<Piece>, olen: nat, alen: nat)
    requires
        all_fit(ps, olen, alen),
    ensures
        ps.len() <= total_length(ps),
    decreases ps.len(),
{
    if ps.len() > 0 {
        assert(piece_fits(ps[ps.len() - 1], olen, alen));
        lemma_fit_sub(ps, 0, ps.len() - 1, olen, alen, alen);
        assert(ps.subrange(0, ps.len() - 1) =~= ps.drop_last());
        lemma_count_le_total(ps.drop_last(), olen, alen);
    }
}

/// Inserts the elements of `s`, in order, at position `offset` of `v`.
fn push_all_at<U: Copy>(v: &mut Vec<U>, offset: usize, s: &[U])
    requires
        offset <= old(v)@.len(),
    ensures
        final(v)@ == old(v)@.take(offset as int) + s@ + old(v)@.skip(offset as int),
{
    let mut k: usize = s.len();
    while k > 0
        invariant
            0 <= k <= s@.len(),
            offset <= old(v)@.len(),
            v@ == old(v)@.take(offset as int) + s@.skip(k as int) + old(v)@.skip(offset as int),
        decreases k,
    {
        k = k - 1;
        v.insert(offset, s[k]);
        assert(s@.skip(k as int) =~= seq![s@[k as int]] + s@.skip(k + 1));
        assert(v@ =~= old(v)@.take(offset as int) + s@.skip(k as int) + old(v)@.skip(
            offset as int,
        ));
    }
}

/// Relies on `Vec::capacity`, which counts the elements the vector can hold without
/// reallocating, and so is never below its length.
#[verifier::external_body]
fn vec_capacity<U>(v: &Vec<U>) -> (r: usize)
    ensures
        r >= v@.len(),
{
    v.capacity()
}

impl<'a, T: 'a> Default for PieceTable<'a, T> {
    /// An empty table without a source.
    fn default() -> (r: PieceTable<'a, T>)
        ensures
            r.wf(),
            r@ == Seq::<T>::empty(),
            r.source_view() == Seq::<T>::empty(),
            r.add_view() == Seq::<T>::empty(),
            r.piece_view() == Seq::<Piece>::empty(),
            r.hints_cleared(),
            r.last_index() == 0,
    {
        PieceTable::new()
    }
}

/// The offset of piece `i + 1` is that of piece `i` plus its length.
pub(crate) proof fn lemma_offset_step(ps: Seq<Piece>, i: int)
    requires
        0 <= i < ps.len(),
    ensures
        piece_offset(ps, i + 1) == piece_offset(ps, i) + ps[i].length,
{
    assert(ps.take(i + 1).drop_last() =~= ps.take(i));
}

/// Piece `i` ends within the whole sequence.
pub(crate) proof fn lemma_offset_bound(ps: Seq<Piece>, i: int)
    requires
        0 <= i < ps.len(),
    ensures
        piece_offset(ps, i) + ps[i].length <= total_length(ps),
{
    lemma_spliced_at(Seq::<Piece>::empty(), Seq::<Piece>::empty(), ps, i);
}

/// Element `d` of piece `p` stands at logical index `piece_offset(ps, p) + d`.
pub(crate) proof fn lemma_elem_at<T>(o: Seq<T>, ad: Seq<T>, ps: Seq<Piece>, p: int, d: int)
    requires
        all_fit(ps, o.len(), ad.len()),
        0 <= p < ps.len(),
        0 <= d < ps[p].length,
    ensures
        piece_offset(ps, p) + d < spliced(o, ad, ps).len(),
        spliced(o, ad, ps)[piece_offset(ps, p) + d] == buffer_of(o, ad, ps[p].buffer)[ps[p].start
            + d],
{
    lemma_spliced_at(o, ad, ps, p);
    lemma_fit_sub(ps, 0, p, o.len(), ad.len(), ad.len());
    lemma_fit_sub(ps, p + 1, ps.len() as int, o.len(), ad.len(), ad.len());
    lemma_spliced_len(o, ad, ps.take(p));
    lemma_spliced_len(o, ad, ps.skip(p + 1));
    assert(piece_fits(ps[p], o.len(), ad.len()));
}

} // verus!
