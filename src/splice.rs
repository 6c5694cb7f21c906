//! How each edit of the piece sequence changes the sequence that it describes.
use vstd::prelude::*;

use crate::piece::{
    all_fit, lemma_fit_sub, lemma_total_concat, splices_in, split_left, split_right, lemma_splice_replace, lemma_spliced_frame, lemma_spliced_one,
    lemma_spliced_three, lemma_spliced_two, piece_elems, piece_fits, piece_offset, spliced, total_length, Buffer,
    Piece,
};

verus! {

/// The piece of one element appended to an add buffer of length `n`.
pub open spec fn added_piece(n: nat) -> Piece {
    Piece { start: n as usize, length: 1, buffer: Buffer::Add }
}

/// After every add-piece other than `p` come to an end at or before `n`.
pub open spec fn adds_end_before(ps: Seq<Piece>, p: int, n: nat) -> bool {
    forall|q: int|
        0 <= q < ps.len() && q != p && (#[trigger] ps[q]).buffer == Buffer::Add ==> ps[q].start
            + ps[q].length <= n
}

/// Pushing onto the add buffer leaves the sequence that live pieces describe.
pub(crate) proof fn lemma_push_frame<T>(o: Seq<T>, ad0: Seq<T>, item: T, ps: Seq<Piece>)
    requires
        all_fit(ps, o.len(), ad0.len()),
    ensures
        spliced(o, ad0, ps) == spliced(o, ad0.push(item), ps),
        all_fit(ps, o.len(), ad0.push(item).len()),
{
    let ad = ad0.push(item);
    assert(ad.take(ad0.len() as int) =~= ad0);
    lemma_spliced_frame(o, ad0, ad, ps);
    lemma_fit_sub(ps, 0, ps.len() as int, o.len(), ad0.len(), ad.len());
    assert(ps.subrange(0, ps.len() as int) =~= ps);
}

/// Inserting a new one-element add-piece before piece `p` (or at the end when `p` is the
/// number of pieces) inserts its element at the offset of `p`.
pub(crate) proof fn lemma_insert_before<T>(o: Seq<T>, ad0: Seq<T>, item: T, ps: Seq<Piece>, p: int)
    requires
        all_fit(ps, o.len(), ad0.len()),
        0 <= p <= ps.len(),
        o.len() <= usize::MAX,
        ad0.len() < usize::MAX,
    ensures
        ({
            let ad = ad0.push(item);
            let ns = ps.insert(p, added_piece(ad0.len()));
            &&& spliced(o, ad, ns) == spliced(o, ad0, ps).insert(piece_offset(ps, p) as int, item)
            &&& all_fit(ns, o.len(), ad.len())
            &&& total_length(ns) == total_length(ps) + 1
            &&& piece_offset(ns, p) == piece_offset(ps, p)
            &&& piece_offset(ps, p) <= total_length(ps)
            &&& adds_end_before(ns, p, ad0.len())
            &&& splices_in(ps, ns, piece_offset(ps, p) as int, added_piece(ad0.len()))
        }),
{
    let ad = ad0.push(item);
    let np = added_piece(ad0.len());
    let ns = ps.insert(p, np);
    lemma_push_frame(o, ad0, item, ps);
    lemma_spliced_one(o, ad, np);
    assert(piece_elems(o, ad, np) =~= seq![item]);
    assert(all_fit(seq![np], o.len(), ad.len()));
    lemma_splice_replace(o, ad, ps, p, p, seq![np]);
    assert(ns =~= ps.take(p) + seq![np] + ps.skip(p));
    assert(ps.subrange(p, p) =~= Seq::<Piece>::empty());
    assert(spliced(o, ad, Seq::<Piece>::empty()) =~= Seq::<T>::empty());
    assert(spliced(o, ad, ns) =~= spliced(o, ad0, ps).insert(piece_offset(ps, p) as int, item));
    assert forall|q: int|
        0 <= q < ns.len() && q != p && (#[trigger] ns[q]).buffer == Buffer::Add implies ns[q].start
        + ns[q].length <= ad0.len() by {
        if q < p {
            assert(piece_fits(ps[q], o.len(), ad0.len()));
        } else {
            assert(piece_fits(ps[q - 1], o.len(), ad0.len()));
        }
    }
    if p == ps.len() {
        assert(ps.take(p) =~= ps);
        assert(ns =~= ps.push(np));
    } else {
        assert(piece_fits(ps[p], o.len(), ad0.len()));
        assert(ps.subrange(p, p + 1) =~= seq![ps[p]]);
        assert(ps.skip(p) =~= seq![ps[p]] + ps.skip(p + 1));
        lemma_total_concat(seq![ps[p]], ps.skip(p + 1));
        lemma_spliced_one(o, ad, ps[p]);
        assert(piece_offset(ps, p) <= piece_offset(ps, p) < piece_offset(ps, p) + ps[p].length);
    }
}

/// Splitting piece `p` at offset `d` and putting a new one-element add-piece between the
/// halves inserts its element at the offset of `p` plus `d`.
pub(crate) proof fn lemma_insert_split<T>(
    o: Seq<T>,
    ad0: Seq<T>,
    item: T,
    ps: Seq<Piece>,
    p: int,
    d: int,
)
    requires
        all_fit(ps, o.len(), ad0.len()),
        0 <= p < ps.len(),
        0 < d < ps[p].length,
        o.len() <= usize::MAX,
        ad0.len() < usize::MAX,
    ensures
        ({
            let ad = ad0.push(item);
            let orig = ps[p];
            let left = Piece { start: orig.start, length: d as usize, buffer: orig.buffer };
            let right = Piece {
                start: (orig.start + d) as usize,
                length: (orig.length - d) as usize,
                buffer: orig.buffer,
            };
            let ns = ps.take(p) + seq![left, added_piece(ad0.len()), right] + ps.skip(p + 1);
            &&& spliced(o, ad, ns) == spliced(o, ad0, ps).insert(piece_offset(ps, p) + d, item)
            &&& all_fit(ns, o.len(), ad.len())
            &&& total_length(ns) == total_length(ps) + 1
            &&& piece_offset(ns, p + 1) == piece_offset(ps, p) + d
            &&& adds_end_before(ns, p + 1, ad0.len())
            &&& splices_in(ps, ns, piece_offset(ps, p) + d, added_piece(ad0.len()))
        }),
{
    let ad = ad0.push(item);
    let orig = ps[p];
    let np = added_piece(ad0.len());
    let left = Piece { start: orig.start, length: d as usize, buffer: orig.buffer };
    let right = Piece {
        start: (orig.start + d) as usize,
        length: (orig.length - d) as usize,
        buffer: orig.buffer,
    };
    let m = seq![left, np, right];
    let ns = ps.take(p) + m + ps.skip(p + 1);
    lemma_push_frame(o, ad0, item, ps);
    assert(piece_fits(ps[p], o.len(), ad0.len()));
    lemma_spliced_three(o, ad, left, np, right);
    assert(all_fit(m, o.len(), ad.len()));
    lemma_splice_replace(o, ad, ps, p, p + 1, m);
    assert(ps.subrange(p, p + 1) =~= seq![orig]);
    lemma_spliced_one(o, ad, orig);
    assert(piece_elems(o, ad, orig) =~= piece_elems(o, ad, left) + piece_elems(o, ad, right));
    assert(piece_elems(o, ad, np) =~= seq![item]);
    assert(spliced(o, ad, ns) =~= spliced(o, ad0, ps).insert(piece_offset(ps, p) + d, item));
    assert(ns.take(p + 1).drop_last() =~= ns.take(p));
    assert(ns.take(p) =~= ps.take(p));
    assert forall|q: int|
        0 <= q < ns.len() && q != p + 1 && (#[trigger] ns[q]).buffer == Buffer::Add implies ns[q].start
        + ns[q].length <= ad0.len() by {
        if q < p {
            assert(piece_fits(ps[q], o.len(), ad0.len()));
        } else if q > p + 2 {
            assert(piece_fits(ps[q - 2], o.len(), ad0.len()));
        }
    }
    assert(ps.skip(p) =~= seq![ps[p]] + ps.skip(p + 1));
    lemma_total_concat(seq![ps[p]], ps.skip(p + 1));
    lemma_spliced_one(o, ad, ps[p]);
    assert(left == split_left(ps[p], d));
    assert(right == split_right(ps[p], d));
    assert(piece_offset(ps, p) <= piece_offset(ps, p) + d < piece_offset(ps, p) + ps[p].length);
}

/// Extending piece `p`, which ends at the end of the add buffer, by one pushed element inserts
/// that element right after the last element of `p`.
pub(crate) proof fn lemma_insert_extend<T>(o: Seq<T>, ad0: Seq<T>, item: T, ps: Seq<Piece>, p: int)
    requires
        all_fit(ps, o.len(), ad0.len()),
        0 <= p < ps.len(),
        ps[p].buffer == Buffer::Add,
        ps[p].start + ps[p].length == ad0.len(),
        o.len() <= usize::MAX,
        ad0.len() < usize::MAX,
    ensures
        ({
            let ad = ad0.push(item);
            let grown = Piece {
                start: ps[p].start,
                length: (ps[p].length + 1) as usize,
                buffer: Buffer::Add,
            };
            let ns = ps.update(p, grown);
            &&& spliced(o, ad, ns) == spliced(o, ad0, ps).insert(
                piece_offset(ps, p) + ps[p].length,
                item,
            )
            &&& all_fit(ns, o.len(), ad.len())
            &&& total_length(ns) == total_length(ps) + 1
            &&& piece_offset(ns, p) == piece_offset(ps, p)
        }),
{
    let ad = ad0.push(item);
    let piece = ps[p];
    let grown = Piece { start: ps[p].start, length: (ps[p].length + 1) as usize, buffer: Buffer::Add };
    let ns = ps.update(p, grown);
    lemma_push_frame(o, ad0, item, ps);
    assert(all_fit(seq![grown], o.len(), ad.len()));
    lemma_splice_replace(o, ad, ps, p, p + 1, seq![grown]);
    assert(ns =~= ps.take(p) + seq![grown] + ps.skip(p + 1));
    assert(ps.subrange(p, p + 1) =~= seq![piece]);
    lemma_spliced_one(o, ad, piece);
    lemma_spliced_one(o, ad, grown);
    assert(piece_fits(piece, o.len(), ad0.len()));
    assert(piece_elems(o, ad, grown) =~= piece_elems(o, ad, piece).push(item));
    assert(spliced(o, ad, ns) =~= spliced(o, ad0, ps).insert(
        piece_offset(ps, p) + ps[p].length,
        item,
    ));
}

/// Piece `p` without its first element.
pub open spec fn without_first(pc: Piece) -> Piece {
    Piece { start: (pc.start + 1) as usize, length: (pc.length - 1) as usize, buffer: pc.buffer }
}

/// Piece `p` without its last element.
pub open spec fn without_last(pc: Piece) -> Piece {
    Piece { start: pc.start, length: (pc.length - 1) as usize, buffer: pc.buffer }
}

/// Replacing piece `p` by `pc2`, whose elements are those of `p` but the one at `d`, removes
/// the element at the offset of `p` plus `d`.
proof fn lemma_remove_in_piece<T>(
    o: Seq<T>,
    ad: Seq<T>,
    ps: Seq<Piece>,
    p: int,
    d: int,
    m: Seq<Piece>,
)
    requires
        all_fit(ps, o.len(), ad.len()),
        all_fit(m, o.len(), ad.len()),
        0 <= p < ps.len(),
        0 <= d < ps[p].length,
        spliced(o, ad, m) == piece_elems(o, ad, ps[p]).remove(d),
        total_length(m) + 1 == ps[p].length,
    ensures
        ({
            let ns = ps.take(p) + m + ps.skip(p + 1);
            &&& spliced(o, ad, ns) == spliced(o, ad, ps).remove(piece_offset(ps, p) + d)
            &&& all_fit(ns, o.len(), ad.len())
            &&& total_length(ns) + 1 == total_length(ps)
            &&& ns.take(p) == ps.take(p)
            &&& piece_offset(ps, p) + d < total_length(ps)
        }),
{
    let ns = ps.take(p) + m + ps.skip(p + 1);
    lemma_splice_replace(o, ad, ps, p, p + 1, m);
    assert(ps.subrange(p, p + 1) =~= seq![ps[p]]);
    lemma_spliced_one(o, ad, ps[p]);
    assert(piece_fits(ps[p], o.len(), ad.len()));
    assert(spliced(o, ad, ns) =~= spliced(o, ad, ps).remove(piece_offset(ps, p) + d));
}

/// Dropping the first element of piece `p` removes the element at the offset of `p`.
pub(crate) proof fn lemma_remove_first_of<T>(o: Seq<T>, ad: Seq<T>, ps: Seq<Piece>, p: int)
    requires
        o.len() <= usize::MAX,
        ad.len() <= usize::MAX,
        all_fit(ps, o.len(), ad.len()),
        0 <= p < ps.len(),
        ps[p].length > 1,
    ensures
        ({
            let ns = ps.update(p, without_first(ps[p]));
            &&& spliced(o, ad, ns) == spliced(o, ad, ps).remove(piece_offset(ps, p) as int)
            &&& all_fit(ns, o.len(), ad.len())
            &&& total_length(ns) + 1 == total_length(ps)
            &&& ns.take(p) == ps.take(p)
        }),
{
    let pc = without_first(ps[p]);
    assert(piece_fits(ps[p], o.len(), ad.len()));
    lemma_spliced_one(o, ad, pc);
    assert(piece_elems(o, ad, pc) =~= piece_elems(o, ad, ps[p]).remove(0));
    lemma_remove_in_piece(o, ad, ps, p, 0, seq![pc]);
    assert(ps.update(p, pc) =~= ps.take(p) + seq![pc] + ps.skip(p + 1));
}

/// Dropping the last element of piece `p` removes the element at its end.
pub(crate) proof fn lemma_remove_last_of<T>(o: Seq<T>, ad: Seq<T>, ps: Seq<Piece>, p: int)
    requires
        all_fit(ps, o.len(), ad.len()),
        0 <= p < ps.len(),
        ps[p].length > 1,
    ensures
        ({
            let ns = ps.update(p, without_last(ps[p]));
            &&& spliced(o, ad, ns) == spliced(o, ad, ps).remove(
                piece_offset(ps, p) + ps[p].length - 1,
            )
            &&& all_fit(ns, o.len(), ad.len())
            &&& total_length(ns) + 1 == total_length(ps)
            &&& ns.take(p) == ps.take(p)
        }),
{
    let pc = without_last(ps[p]);
    assert(piece_fits(ps[p], o.len(), ad.len()));
    lemma_spliced_one(o, ad, pc);
    assert(piece_elems(o, ad, pc) =~= piece_elems(o, ad, ps[p]).remove(ps[p].length - 1));
    lemma_remove_in_piece(o, ad, ps, p, ps[p].length - 1, seq![pc]);
    assert(ps.update(p, pc) =~= ps.take(p) + seq![pc] + ps.skip(p + 1));
}

/// Dropping a piece of one element removes that element.
pub(crate) proof fn lemma_remove_piece<T>(o: Seq<T>, ad: Seq<T>, ps: Seq<Piece>, p: int)
    requires
        all_fit(ps, o.len(), ad.len()),
        0 <= p < ps.len(),
        ps[p].length == 1,
    ensures
        ({
            let ns = ps.remove(p);
            &&& spliced(o, ad, ns) == spliced(o, ad, ps).remove(piece_offset(ps, p) as int)
            &&& all_fit(ns, o.len(), ad.len())
            &&& total_length(ns) + 1 == total_length(ps)
            &&& ns.take(p) == ps.take(p)
        }),
{
    let e = Seq::<Piece>::empty();
    assert(spliced(o, ad, e) =~= Seq::<T>::empty());
    assert(piece_fits(ps[p], o.len(), ad.len()));
    assert(piece_elems(o, ad, ps[p]).remove(0) =~= Seq::<T>::empty());
    lemma_remove_in_piece(o, ad, ps, p, 0, e);
    assert(ps.remove(p) =~= ps.take(p) + e + ps.skip(p + 1));
}

/// Splitting piece `p` around its element at offset `d` removes that element.
pub(crate) proof fn lemma_remove_split<T>(o: Seq<T>, ad: Seq<T>, ps: Seq<Piece>, p: int, d: int)
    requires
        o.len() <= usize::MAX,
        ad.len() <= usize::MAX,
        all_fit(ps, o.len(), ad.len()),
        0 <= p < ps.len(),
        0 < d,
        d + 1 < ps[p].length,
    ensures
        ({
            let pc = ps[p];
            let left = Piece { start: pc.start, length: d as usize, buffer: pc.buffer };
            let right = Piece {
                start: (pc.start + d + 1) as usize,
                length: (pc.length - d - 1) as usize,
                buffer: pc.buffer,
            };
            let ns = ps.take(p) + seq![left, right] + ps.skip(p + 1);
            &&& spliced(o, ad, ns) == spliced(o, ad, ps).remove(piece_offset(ps, p) + d)
            &&& all_fit(ns, o.len(), ad.len())
            &&& total_length(ns) + 1 == total_length(ps)
            &&& ns.take(p) == ps.take(p)
        }),
{
    let pc = ps[p];
    let left = Piece { start: pc.start, length: d as usize, buffer: pc.buffer };
    let right = Piece {
        start: (pc.start + d + 1) as usize,
        length: (pc.length - d - 1) as usize,
        buffer: pc.buffer,
    };
    assert(piece_fits(pc, o.len(), ad.len()));
    lemma_spliced_two(o, ad, left, right);
    assert(piece_elems(o, ad, left) + piece_elems(o, ad, right) =~= piece_elems(o, ad, pc).remove(
        d,
    ));
    assert(all_fit(seq![left, right], o.len(), ad.len()));
    lemma_remove_in_piece(o, ad, ps, p, d, seq![left, right]);
}

/// Popping the add buffer leaves the sequence that pieces fitting the shorter buffer describe.
pub(crate) proof fn lemma_pop_frame<T>(o: Seq<T>, ad0: Seq<T>, ns: Seq<Piece>)
    requires
        ad0.len() > 0,
        all_fit(ns, o.len(), (ad0.len() - 1) as nat),
    ensures
        spliced(o, ad0.subrange(0, ad0.len() - 1), ns) == spliced(o, ad0, ns),
{
    let ad = ad0.subrange(0, ad0.len() - 1);
    assert(ad0.take(ad.len() as int) =~= ad);
    lemma_spliced_frame(o, ad, ad0, ns);
}

/// Taking back the element last pushed onto the add buffer, which is the last element of piece
/// `p`, while `p` keeps at least one element.
pub(crate) proof fn lemma_undo_shrink<T>(o: Seq<T>, ad0: Seq<T>, ps: Seq<Piece>, p: int)
    requires
        all_fit(ps, o.len(), ad0.len()),
        0 <= p < ps.len(),
        ps[p].buffer == Buffer::Add,
        ps[p].start + ps[p].length == ad0.len(),
        adds_end_before(ps, p, ps[p].start as nat),
        ps[p].length > 1,
    ensures
        ({
            let ad = ad0.subrange(0, ad0.len() - 1);
            let ns = ps.update(p, without_last(ps[p]));
            &&& spliced(o, ad, ns) == spliced(o, ad0, ps).remove(
                piece_offset(ps, p) + ps[p].length - 1,
            )
            &&& all_fit(ns, o.len(), ad.len())
            &&& total_length(ns) + 1 == total_length(ps)
            &&& piece_offset(ns, p) == piece_offset(ps, p)
            &&& adds_end_before(ns, p, ns[p].start as nat)
        }),
{
    let ns = ps.update(p, without_last(ps[p]));
    lemma_remove_last_of(o, ad0, ps, p);
    assert forall|q: int| 0 <= q < ns.len() implies piece_fits(
        #[trigger] ns[q],
        o.len(),
        (ad0.len() - 1) as nat,
    ) by {
        assert(piece_fits(ps[q], o.len(), ad0.len()));
    }
    lemma_pop_frame(o, ad0, ns);
}

/// Taking back the element last pushed onto the add buffer, which is all that piece `p` holds.
pub(crate) proof fn lemma_undo_drop<T>(o: Seq<T>, ad0: Seq<T>, ps: Seq<Piece>, p: int)
    requires
        all_fit(ps, o.len(), ad0.len()),
        0 <= p < ps.len(),
        ps[p].buffer == Buffer::Add,
        ps[p].start + ps[p].length == ad0.len(),
        adds_end_before(ps, p, ps[p].start as nat),
        ps[p].length == 1,
    ensures
        ({
            let ad = ad0.subrange(0, ad0.len() - 1);
            let ns = ps.remove(p);
            &&& spliced(o, ad, ns) == spliced(o, ad0, ps).remove(piece_offset(ps, p) as int)
            &&& all_fit(ns, o.len(), ad.len())
            &&& total_length(ns) + 1 == total_length(ps)
            &&& ns.take(p) == ps.take(p)
        }),
{
    let ns = ps.remove(p);
    lemma_remove_piece(o, ad0, ps, p);
    assert forall|q: int| 0 <= q < ns.len() implies piece_fits(
        #[trigger] ns[q],
        o.len(),
        (ad0.len() - 1) as nat,
    ) by {
        if q < p {
            assert(piece_fits(ps[q], o.len(), ad0.len()));
        } else {
            assert(piece_fits(ps[q + 1], o.len(), ad0.len()));
        }
    }
    lemma_pop_frame(o, ad0, ns);
}

} // verus!
