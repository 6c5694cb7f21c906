//! Piece descriptors and the mathematical model of a sequence of pieces.
use vstd::prelude::*;

verus! {

/// Which buffer a piece projects into.
#[derive(Debug, Clone, Copy, PartialEq, Eq, Hash)]
pub enum Buffer {
    Add,
    Original,
}

/// A contiguous run `buffer[start .. start + length]` contributed to the logical sequence.
#[derive(Debug, Clone, Copy, PartialEq, Eq, Hash)]
pub struct Piece {
    pub start: usize,
    pub length: usize,
    pub buffer: Buffer,
}

/// The buffer that `b` selects.
pub open spec fn buffer_of<T>(original: Seq<T>, adds: Seq<T>, b: Buffer) -> Seq<T> {
    match b {
        Buffer::Add => adds,
        Buffer::Original => original,
    }
}

/// A live piece is non-empty and lies inside the buffer it selects.
pub open spec fn piece_fits(p: Piece, original_len: nat, add_len: nat) -> bool {
    &&& p.length > 0
    &&& p.start + p.length <= match p.buffer {
        Buffer::Add => add_len,
        Buffer::Original => original_len,
    }
}

/// Every piece of `ps` is live.
pub open spec fn all_fit(ps: Seq<Piece>, original_len: nat, add_len: nat) -> bool {
    forall|i: int| 0 <= i < ps.len() ==> piece_fits(#[trigger] ps[i], original_len, add_len)
}

/// The elements that one piece contributes.
pub open spec fn piece_elems<T>(original: Seq<T>, adds: Seq<T>, p: Piece) -> Seq<T> {
    buffer_of(original, adds, p.buffer).subrange(p.start as int, p.start + p.length)
}

/// The logical sequence: the projections of all pieces, concatenated in order.
pub open spec fn spliced<T>(original: Seq<T>, adds: Seq<T>, ps: Seq<Piece>) -> Seq<T>
    decreases ps.len(),
{
    if ps.len() == 0 {
        Seq::empty()
    } else {
        spliced(original, adds, ps.drop_last()) + piece_elems(original, adds, ps.last())
    }
}

/// The sum of the lengths of all pieces.
pub open spec fn total_length(ps: Seq<Piece>) -> nat
    decreases ps.len(),
{
    if ps.len() == 0 {
        0
    } else {
        (total_length(ps.drop_last()) + ps.last().length) as nat
    }
}

/// The logical index at which piece `p` begins.
pub open spec fn piece_offset(ps: Seq<Piece>, p: int) -> nat {
    total_length(ps.take(p))
}

/// Piece `pc` with one more element at its end.
pub open spec fn grown(pc: Piece) -> Piece {
    Piece { start: pc.start, length: (pc.length + 1) as usize, buffer: pc.buffer }
}

/// The first `d` elements of piece `pc`.
pub open spec fn split_left(pc: Piece, d: int) -> Piece {
    Piece { start: pc.start, length: d as usize, buffer: pc.buffer }
}

/// Piece `pc` from its element `d` on.
pub open spec fn split_right(pc: Piece, d: int) -> Piece {
    Piece { start: (pc.start + d) as usize, length: (pc.length - d) as usize, buffer: pc.buffer }
}

/// Piece `p` of `ps` is an add-piece that ends at the end of an add buffer of length
/// `add_len`, and its last element stands at logical index `last`.
pub open spec fn add_tail_at(ps: Seq<Piece>, add_len: nat, p: int, last: int) -> bool {
    &&& 0 <= p < ps.len()
    &&& ps[p].buffer == Buffer::Add
    &&& ps[p].start + ps[p].length == add_len
    &&& piece_offset(ps, p) + ps[p].length == last + 1
}

/// `ns` is `ps` with the piece `np` put in at logical index `idx`: appended at the end, put
/// before the piece that starts at `idx`, or put between the two halves of the piece that
/// `idx` falls inside.
pub open spec fn splices_in(ps: Seq<Piece>, ns: Seq<Piece>, idx: int, np: Piece) -> bool {
    if idx == total_length(ps) {
        ns == ps.push(np)
    } else {
        exists|p: int|
            0 <= p < ps.len() && #[trigger] piece_offset(ps, p) <= idx < piece_offset(ps, p)
                + ps[p].length && {
                let d = idx - piece_offset(ps, p);
                if d == 0 {
                    ns == ps.insert(p, np)
                } else {
                    ns == ps.take(p) + seq![split_left(ps[p], d), np, split_right(ps[p], d)]
                        + ps.skip(p + 1)
                }
            }
    }
}

pub(crate) proof fn lemma_total_concat(a: Seq<Piece>, b: Seq<Piece>)
    ensures
        total_length(a + b) == total_length(a) + total_length(b),
    decreases b.len(),
{
    if b.len() == 0 {
        assert(a + b =~= a);
    } else {
        assert((a + b).drop_last() =~= a + b.drop_last());
        lemma_total_concat(a, b.drop_last());
    }
}

pub(crate) proof fn lemma_spliced_concat<T>(o: Seq<T>, ad: Seq<T>, a: Seq<Piece>, b: Seq<Piece>)
    ensures
        spliced(o, ad, a + b) == spliced(o, ad, a) + spliced(o, ad, b),
    decreases b.len(),
{
    if b.len() == 0 {
        assert(a + b =~= a);
        assert(spliced(o, ad, a) + spliced(o, ad, b) =~= spliced(o, ad, a));
    } else {
        assert((a + b).drop_last() =~= a + b.drop_last());
        lemma_spliced_concat(o, ad, a, b.drop_last());
        assert(spliced(o, ad, a + b) =~= spliced(o, ad, a) + spliced(o, ad, b));
    }
}

/// Splicing a sequence made of three parts.
pub(crate) proof fn lemma_spliced3<T>(
    o: Seq<T>,
    ad: Seq<T>,
    a: Seq<Piece>,
    m: Seq<Piece>,
    b: Seq<Piece>,
)
    ensures
        spliced(o, ad, a + m + b) == spliced(o, ad, a) + spliced(o, ad, m) + spliced(o, ad, b),
        total_length(a + m + b) == total_length(a) + total_length(m) + total_length(b),
{
    lemma_spliced_concat(o, ad, a + m, b);
    lemma_spliced_concat(o, ad, a, m);
    lemma_total_concat(a + m, b);
    lemma_total_concat(a, m);
}

pub(crate) proof fn lemma_spliced_one<T>(o: Seq<T>, ad: Seq<T>, p: Piece)
    ensures
        spliced(o, ad, seq![p]) == piece_elems(o, ad, p),
        total_length(seq![p]) == p.length,
{
    let e = Seq::<Piece>::empty();
    assert(seq![p].drop_last() =~= e);
    assert(spliced(o, ad, e) == Seq::<T>::empty());
    assert(total_length(e) == 0);
    assert(spliced(o, ad, seq![p]) =~= piece_elems(o, ad, p));
}

pub(crate) proof fn lemma_spliced_two<T>(o: Seq<T>, ad: Seq<T>, p: Piece, q: Piece)
    ensures
        spliced(o, ad, seq![p, q]) == piece_elems(o, ad, p) + piece_elems(o, ad, q),
        total_length(seq![p, q]) == p.length + q.length,
{
    assert(seq![p, q] =~= seq![p] + seq![q]);
    lemma_spliced_concat(o, ad, seq![p], seq![q]);
    lemma_total_concat(seq![p], seq![q]);
    lemma_spliced_one(o, ad, p);
    lemma_spliced_one(o, ad, q);
}

pub(crate) proof fn lemma_spliced_three<T>(o: Seq<T>, ad: Seq<T>, p: Piece, q: Piece, r: Piece)
    ensures
        spliced(o, ad, seq![p, q, r]) == piece_elems(o, ad, p) + piece_elems(o, ad, q)
            + piece_elems(o, ad, r),
        total_length(seq![p, q, r]) == p.length + q.length + r.length,
{
    assert(seq![p, q, r] =~= seq![p, q] + seq![r]);
    lemma_spliced_concat(o, ad, seq![p, q], seq![r]);
    lemma_total_concat(seq![p, q], seq![r]);
    lemma_spliced_two(o, ad, p, q);
    lemma_spliced_one(o, ad, r);
}

pub(crate) proof fn lemma_spliced_len<T>(o: Seq<T>, ad: Seq<T>, ps: Seq<Piece>)
    requires
        all_fit(ps, o.len(), ad.len()),
    ensures
        spliced(o, ad, ps).len() == total_length(ps),
    decreases ps.len(),
{
    if ps.len() > 0 {
        assert(piece_fits(ps[ps.len() - 1], o.len(), ad.len()));
        lemma_spliced_len(o, ad, ps.drop_last());
    }
}

/// Piece `p` in context: what comes before it, its own elements, and what comes after.
pub(crate) proof fn lemma_spliced_at<T>(o: Seq<T>, ad: Seq<T>, ps: Seq<Piece>, p: int)
    requires
        0 <= p < ps.len(),
    ensures
        ps == ps.take(p) + seq![ps[p]] + ps.skip(p + 1),
        spliced(o, ad, ps) == spliced(o, ad, ps.take(p)) + piece_elems(o, ad, ps[p]) + spliced(
            o,
            ad,
            ps.skip(p + 1),
        ),
        total_length(ps) == piece_offset(ps, p) + ps[p].length + total_length(ps.skip(p + 1)),
{
    assert(ps =~= ps.take(p) + seq![ps[p]] + ps.skip(p + 1));
    lemma_spliced3(o, ad, ps.take(p), seq![ps[p]], ps.skip(p + 1));
    lemma_spliced_one(o, ad, ps[p]);
}

/// Pieces taken out of a live sequence are live, also against a longer add buffer.
pub(crate) proof fn lemma_fit_sub(ps: Seq<Piece>, lo: int, hi: int, olen: nat, alen: nat, alen2: nat)
    requires
        all_fit(ps, olen, alen),
        0 <= lo <= hi <= ps.len(),
        alen <= alen2,
    ensures
        all_fit(ps.subrange(lo, hi), olen, alen2),
{
    assert forall|i: int| 0 <= i < hi - lo implies piece_fits(
        #[trigger] ps.subrange(lo, hi)[i],
        olen,
        alen2,
    ) by {
        assert(piece_fits(ps[lo + i], olen, alen));
    }
}

/// Replacing the pieces `lo .. hi` of `ps` by `m`: the projection of what stands before and
/// after them is kept.
pub(crate) proof fn lemma_splice_replace<T>(
    o: Seq<T>,
    ad: Seq<T>,
    ps: Seq<Piece>,
    lo: int,
    hi: int,
    m: Seq<Piece>,
)
    requires
        0 <= lo <= hi <= ps.len(),
        all_fit(ps, o.len(), ad.len()),
        all_fit(m, o.len(), ad.len()),
    ensures
        ({
            let ps2 = ps.take(lo) + m + ps.skip(hi);
            &&& spliced(o, ad, ps) == spliced(o, ad, ps.take(lo)) + spliced(
                o,
                ad,
                ps.subrange(lo, hi),
            ) + spliced(o, ad, ps.skip(hi))
            &&& spliced(o, ad, ps2) == spliced(o, ad, ps.take(lo)) + spliced(o, ad, m) + spliced(
                o,
                ad,
                ps.skip(hi),
            )
            &&& spliced(o, ad, ps.take(lo)).len() == piece_offset(ps, lo)
            &&& total_length(ps) == piece_offset(ps, lo) + total_length(ps.subrange(lo, hi))
                + total_length(ps.skip(hi))
            &&& total_length(ps2) == piece_offset(ps, lo) + total_length(m) + total_length(
                ps.skip(hi),
            )
            &&& ps2.take(lo) == ps.take(lo)
            &&& piece_offset(ps2, lo) == piece_offset(ps, lo)
            &&& all_fit(ps2, o.len(), ad.len())
        }),
{
    let ps2 = ps.take(lo) + m + ps.skip(hi);
    assert(ps =~= ps.take(lo) + ps.subrange(lo, hi) + ps.skip(hi));
    lemma_spliced3(o, ad, ps.take(lo), ps.subrange(lo, hi), ps.skip(hi));
    lemma_spliced3(o, ad, ps.take(lo), m, ps.skip(hi));
    lemma_fit_sub(ps, 0, lo, o.len(), ad.len(), ad.len());
    lemma_spliced_len(o, ad, ps.take(lo));
    assert(ps2.take(lo) =~= ps.take(lo));
    assert forall|i: int| 0 <= i < ps2.len() implies piece_fits(
        #[trigger] ps2[i],
        o.len(),
        ad.len(),
    ) by {
        if i < lo {
            assert(piece_fits(ps[i], o.len(), ad.len()));
        } else if i < lo + m.len() {
            assert(piece_fits(m[i - lo], o.len(), ad.len()));
        } else {
            assert(piece_fits(ps[i - lo - m.len() + hi], o.len(), ad.len()));
        }
    }
}

/// Growing the add buffer at its end leaves the projection of pieces that fit the shorter one.
pub(crate) proof fn lemma_spliced_frame<T>(o: Seq<T>, ad1: Seq<T>, ad2: Seq<T>, ps: Seq<Piece>)
    requires
        all_fit(ps, o.len(), ad1.len()),
        ad1.len() <= ad2.len(),
        ad2.take(ad1.len() as int) == ad1,
    ensures
        spliced(o, ad1, ps) == spliced(o, ad2, ps),
    decreases ps.len(),
{
    if ps.len() > 0 {
        let q = ps.last();
        assert(piece_fits(ps[ps.len() - 1], o.len(), ad1.len()));
        lemma_spliced_frame(o, ad1, ad2, ps.drop_last());
        assert(piece_elems(o, ad1, q) =~= piece_elems(o, ad2, q)) by {
            if q.buffer == Buffer::Add {
                assert forall|i: int| 0 <= i < q.length implies #[trigger] ad1[q.start + i] == ad2[q.start
                    + i] by {
                    assert(ad2.take(ad1.len() as int)[q.start + i] == ad2[q.start + i]);
                }
            }
        }
    }
}

} // verus!
