use vstd::prelude::*;
use vstd::utf8::*;

use super::{
    at_char_boundary, bytes_of, insert_error, is_continuation, lemma_boundary_concat,
    lemma_valid_subrange, push_bytes, range_error, splice, string_of, DocumentError, TextBuffer,
    TextOffset, TextRange, TextSnapshot,
};

verus! {

#[derive(Debug, Clone, Copy, PartialEq, Eq, Structural)]
enum BufferSource {
    Original,
    Add,
}

#[derive(Debug, Clone, Copy, PartialEq, Eq, Structural)]
struct Piece {
    source: BufferSource,
    start: usize,
    len: usize,
}

/// A text buffer made of pieces of two append-only byte buffers: the text the
/// table was created with, and everything inserted since.
#[derive(Debug, Clone, PartialEq, Eq)]
pub struct PieceTable {
    original: Vec<u8>,
    add: Vec<u8>,
    pieces: Vec<Piece>,
    len_bytes: usize,
}

spec fn source_bytes(original: Seq<u8>, add: Seq<u8>, source: BufferSource) -> Seq<u8> {
    match source {
        BufferSource::Original => original,
        BufferSource::Add => add,
    }
}

spec fn piece_bytes(original: Seq<u8>, add: Seq<u8>, p: Piece) -> Seq<u8> {
    source_bytes(original, add, p.source).subrange(p.start as int, p.start + p.len)
}

spec fn pieces_bytes(original: Seq<u8>, add: Seq<u8>, ps: Seq<Piece>) -> Seq<u8>
    decreases ps.len(),
{
    if ps.len() == 0 {
        Seq::empty()
    } else {
        pieces_bytes(original, add, ps.drop_last()) + piece_bytes(original, add, ps.last())
    }
}

spec fn total_len(ps: Seq<Piece>) -> nat
    decreases ps.len(),
{
    if ps.len() == 0 {
        0
    } else {
        total_len(ps.drop_last()) + ps.last().len as nat
    }
}

spec fn piece_ok(original: Seq<u8>, add: Seq<u8>, p: Piece) -> bool {
    &&& p.len > 0
    &&& p.start + p.len <= source_bytes(original, add, p.source).len()
    &&& valid_utf8(piece_bytes(original, add, p))
}

/// The first `w` bytes of piece `p`.
spec fn piece_head(p: Piece, w: int) -> Piece {
    Piece { source: p.source, start: p.start, len: w as usize }
}

/// Piece `p` without its first `w` bytes.
spec fn piece_tail(p: Piece, w: int) -> Piece {
    Piece { source: p.source, start: (p.start + w) as usize, len: (p.len - w) as usize }
}

/// The pieces `ps` with piece `i` cut in two after its first `w` bytes.
spec fn cut_at(ps: Seq<Piece>, i: int, w: int) -> Seq<Piece> {
    ps.take(i) + seq![piece_head(ps[i], w), piece_tail(ps[i], w)] + ps.skip(i + 1)
}

/// `q` continues `p` in the same buffer, so the two read as one piece.
spec fn contiguous(p: Piece, q: Piece) -> bool {
    p.source == q.source && p.start + p.len == q.start
}

/// No two neighbouring pieces continue each other in the same buffer.
spec fn pieces_merged(ps: Seq<Piece>) -> bool {
    forall|k: int| 0 <= k && k + 1 < ps.len() ==> !#[trigger] contiguous(ps[k], ps[k + 1])
}

spec fn pieces_ok(original: Seq<u8>, add: Seq<u8>, ps: Seq<Piece>) -> bool {
    forall|i: int| 0 <= i < ps.len() ==> #[trigger] piece_ok(original, add, ps[i])
}

proof fn lemma_pieces_concat(o: Seq<u8>, a: Seq<u8>, p1: Seq<Piece>, p2: Seq<Piece>)
    ensures
        pieces_bytes(o, a, p1 + p2) == pieces_bytes(o, a, p1) + pieces_bytes(o, a, p2),
        total_len(p1 + p2) == total_len(p1) + total_len(p2),
    decreases p2.len(),
{
    if p2.len() == 0 {
        assert(p1 + p2 =~= p1);
        assert(pieces_bytes(o, a, p1) + pieces_bytes(o, a, p2) =~= pieces_bytes(o, a, p1));
    } else {
        lemma_pieces_concat(o, a, p1, p2.drop_last());
        assert((p1 + p2).drop_last() =~= p1 + p2.drop_last());
        assert((p1 + p2).last() == p2.last());
        assert(pieces_bytes(o, a, p1 + p2) =~= pieces_bytes(o, a, p1) + pieces_bytes(o, a, p2));
    }
}

proof fn lemma_pieces_single(o: Seq<u8>, a: Seq<u8>, p: Piece)
    ensures
        pieces_bytes(o, a, seq![p]) == piece_bytes(o, a, p),
        total_len(seq![p]) == p.len,
{
    let s = seq![p];
    assert(s.len() == 1);
    assert(s.last() == p);
    assert(s.drop_last() =~= Seq::<Piece>::empty());
    assert(pieces_bytes(o, a, s.drop_last()) == Seq::<u8>::empty());
    assert(total_len(s.drop_last()) == 0);
    assert(Seq::<u8>::empty() + piece_bytes(o, a, p) =~= piece_bytes(o, a, p));
}

proof fn lemma_pieces_len(o: Seq<u8>, a: Seq<u8>, ps: Seq<Piece>)
    requires
        pieces_ok(o, a, ps),
    ensures
        pieces_bytes(o, a, ps).len() == total_len(ps),
        valid_utf8(pieces_bytes(o, a, ps)),
    decreases ps.len(),
{
    if ps.len() > 0 {
        assert(piece_ok(o, a, ps[ps.len() - 1]));
        lemma_pieces_len(o, a, ps.drop_last());
        valid_utf8_concat(pieces_bytes(o, a, ps.drop_last()), piece_bytes(o, a, ps.last()));
    }
}

/// Bytes of the first `k + 1` pieces extend those of the first `k` by piece `k`.
proof fn lemma_take_step(o: Seq<u8>, a: Seq<u8>, ps: Seq<Piece>, k: int)
    requires
        0 <= k < ps.len(),
    ensures
        pieces_bytes(o, a, ps.take(k + 1)) == pieces_bytes(o, a, ps.take(k)) + piece_bytes(o, a, ps[k]),
        total_len(ps.take(k + 1)) == total_len(ps.take(k)) + ps[k].len,
{
    assert(ps.take(k + 1).drop_last() =~= ps.take(k));
}

/// Longer prefixes of positive-length pieces are strictly longer.
proof fn lemma_take_monotone(o: Seq<u8>, a: Seq<u8>, ps: Seq<Piece>, i: int, j: int)
    requires
        pieces_ok(o, a, ps),
        0 <= i <= j <= ps.len(),
    ensures
        total_len(ps.take(i)) <= total_len(ps.take(j)),
        i < j ==> total_len(ps.take(i)) < total_len(ps.take(j)),
    decreases j - i,
{
    if i < j {
        lemma_take_monotone(o, a, ps, i, j - 1);
        lemma_take_step(o, a, ps, j - 1);
        assert(piece_ok(o, a, ps[j - 1]));
    }
}

/// Pieces that only use the first `a.len()` bytes of the add buffer read the same
/// after the add buffer grows.
proof fn lemma_frame_add(o: Seq<u8>, a: Seq<u8>, a2: Seq<u8>, ps: Seq<Piece>)
    requires
        pieces_ok(o, a, ps),
        a2.len() >= a.len(),
        a2.subrange(0, a.len() as int) == a,
    ensures
        pieces_ok(o, a2, ps),
        pieces_bytes(o, a2, ps) == pieces_bytes(o, a, ps),
    decreases ps.len(),
{
    assert forall|i: int| 0 <= i < ps.len() implies #[trigger] piece_ok(o, a2, ps[i]) by {
        assert(piece_ok(o, a, ps[i]));
        let p = ps[i];
        if p.source == BufferSource::Add {
            assert(piece_bytes(o, a2, p) =~= piece_bytes(o, a, p));
        }
    }
    if ps.len() > 0 {
        assert(pieces_ok(o, a, ps.drop_last()));
        lemma_frame_add(o, a, a2, ps.drop_last());
        let p = ps.last();
        assert(piece_ok(o, a, ps[ps.len() - 1]));
        if p.source == BufferSource::Add {
            assert(piece_bytes(o, a2, p) =~= piece_bytes(o, a, p));
        }
    }
}


/// A prefix of pieces ends on a character boundary of the whole text.
proof fn lemma_prefix_boundary(o: Seq<u8>, a: Seq<u8>, ps: Seq<Piece>, k: int)
    requires
        pieces_ok(o, a, ps),
        0 <= k <= ps.len(),
    ensures
        at_char_boundary(pieces_bytes(o, a, ps), total_len(ps.take(k)) as int),
        pieces_bytes(o, a, ps.take(k)) == pieces_bytes(o, a, ps).subrange(0, total_len(ps.take(k)) as int),
{
    let head = ps.take(k);
    let rest = ps.skip(k);
    assert(ps =~= head + rest);
    lemma_pieces_concat(o, a, head, rest);
    assert(pieces_ok(o, a, head));
    assert(pieces_ok(o, a, rest));
    lemma_pieces_len(o, a, head);
    lemma_pieces_len(o, a, rest);
    lemma_boundary_concat(pieces_bytes(o, a, head), pieces_bytes(o, a, rest), total_len(head) as int);
    assert(pieces_bytes(o, a, ps).subrange(0, total_len(head) as int) =~= pieces_bytes(o, a, head));
}

/// The text of the pieces seen around piece `k`.
proof fn lemma_around(o: Seq<u8>, a: Seq<u8>, ps: Seq<Piece>, k: int)
    requires
        pieces_ok(o, a, ps),
        0 <= k < ps.len(),
    ensures
        ps == ps.take(k) + seq![ps[k]] + ps.skip(k + 1),
        pieces_bytes(o, a, ps) == pieces_bytes(o, a, ps.take(k)) + piece_bytes(o, a, ps[k])
            + pieces_bytes(o, a, ps.skip(k + 1)),
        pieces_bytes(o, a, ps.take(k)).len() == total_len(ps.take(k)),
        piece_ok(o, a, ps[k]),
{
    assert(ps =~= ps.take(k) + seq![ps[k]] + ps.skip(k + 1));
    lemma_pieces_concat(o, a, ps.take(k) + seq![ps[k]], ps.skip(k + 1));
    lemma_pieces_concat(o, a, ps.take(k), seq![ps[k]]);
    lemma_pieces_single(o, a, ps[k]);
    assert(pieces_ok(o, a, ps.take(k)));
    lemma_pieces_len(o, a, ps.take(k));
}

/// Replacing piece `k` by two pieces that read the same keeps the text.
proof fn lemma_replace_by_two(o: Seq<u8>, a: Seq<u8>, ps: Seq<Piece>, k: int, l: Piece, r: Piece)
    requires
        pieces_ok(o, a, ps),
        0 <= k < ps.len(),
        piece_ok(o, a, l),
        piece_ok(o, a, r),
        piece_bytes(o, a, l) + piece_bytes(o, a, r) == piece_bytes(o, a, ps[k]),
        l.len + r.len == ps[k].len,
    ensures
        ({
            let np = ps.take(k) + seq![l, r] + ps.skip(k + 1);
            &&& pieces_ok(o, a, np)
            &&& pieces_bytes(o, a, np) == pieces_bytes(o, a, ps)
            &&& total_len(np) == total_len(ps)
            &&& np.take(k + 1) == ps.take(k) + seq![l]
        }),
{
    let np = ps.take(k) + seq![l, r] + ps.skip(k + 1);
    lemma_around(o, a, ps, k);
    lemma_pieces_concat(o, a, ps.take(k) + seq![l, r], ps.skip(k + 1));
    lemma_pieces_concat(o, a, ps.take(k), seq![l, r]);
    assert(seq![l, r] =~= seq![l] + seq![r]);
    lemma_pieces_concat(o, a, seq![l], seq![r]);
    lemma_pieces_single(o, a, l);
    lemma_pieces_single(o, a, r);
    lemma_pieces_concat(o, a, ps.take(k) + seq![ps[k]], ps.skip(k + 1));
    lemma_pieces_concat(o, a, ps.take(k), seq![ps[k]]);
    lemma_pieces_single(o, a, ps[k]);
    assert(pieces_bytes(o, a, np) =~= pieces_bytes(o, a, ps));
    assert forall|i: int| 0 <= i < np.len() implies #[trigger] piece_ok(o, a, np[i]) by {
        if i < k {
            assert(np[i] == ps[i]);
        } else if i > k + 1 {
            assert(np[i] == ps[i - 1]);
        }
    }
    assert(np.take(k + 1) =~= ps.take(k) + seq![l]);
}

impl PieceTable {
    proof fn lemma_buffers_bounded(&self)
        ensures
            self.original@.len() <= usize::MAX,
            self.add@.len() <= usize::MAX,
    {
        assert(self.original.len() == self.original@.len());
        assert(self.add.len() == self.add@.len());
    }

    spec fn text_spec(self) -> Seq<u8> {
        pieces_bytes(self.original@, self.add@, self.pieces@)
    }

    spec fn wf(self) -> bool {
        &&& pieces_ok(self.original@, self.add@, self.pieces@)
        &&& self.len_bytes == total_len(self.pieces@)
    }

    /// A table holding `text`.
    pub fn new(text: &str) -> (t: Self)
        ensures
            t.well_formed(),
            t.text() == encode_utf8(text@),
    {
        let original = bytes_of(text);
        let len_bytes = original.len();
        let mut pieces: Vec<Piece> = Vec::new();
        if len_bytes > 0 {
            pieces.push(Piece { source: BufferSource::Original, start: 0, len: len_bytes });
        }
        let t = Self { original, add: Vec::new(), pieces, len_bytes };
        proof {
            if len_bytes > 0 {
                let p = t.pieces@[0];
                assert(t.pieces@ =~= seq![p]);
                assert(piece_bytes(t.original@, t.add@, p) =~= t.original@);
                lemma_pieces_single(t.original@, t.add@, p);
                assert(pieces_ok(t.original@, t.add@, t.pieces@));
            } else {
                assert(t.original@ =~= Seq::<u8>::empty());
            }
        }
        t
    }

    /// Appends `text` to the add buffer and returns the piece covering it.
    fn append_to_add(&mut self, text: &Vec<u8>) -> (p: Piece)
        requires
            old(self).wf(),
            valid_utf8(text@),
        ensures
            final(self).wf(),
            final(self).text_spec() == old(self).text_spec(),
            final(self).original@ == old(self).original@,
            p.source == BufferSource::Add,
            p.len == text@.len(),
            p.start + p.len <= final(self).add@.len(),
            piece_bytes(final(self).original@, final(self).add@, p) == text@,
    {
        let start = self.add.len();
        push_bytes(&mut self.add, text, 0, text.len());
        proof {
            assert(text@.subrange(0, text@.len() as int) =~= text@);
            assert(self.add@.subrange(0, old(self).add@.len() as int) =~= old(self).add@);
            lemma_frame_add(self.original@, old(self).add@, self.add@, self.pieces@);
        }
        let p = Piece { source: BufferSource::Add, start, len: text.len() };
        proof {
            assert(piece_bytes(self.original@, self.add@, p) =~= text@);
        }
        p
    }

    fn buffer_for(&self, source: BufferSource) -> (b: &Vec<u8>)
        ensures
            b@ == source_bytes(self.original@, self.add@, source),
    {
        match source {
            BufferSource::Original => &self.original,
            BufferSource::Add => &self.add,
        }
    }

    /// Cuts piece `index` in two at `inner`, a character boundary inside it.
    fn split_piece(&mut self, index: usize, inner: usize)
        requires
            old(self).wf(),
            index < old(self).pieces@.len(),
            0 < inner < old(self).pieces@[index as int].len,
            at_char_boundary(piece_bytes(old(self).original@, old(self).add@, old(self).pieces@[index as int]), inner as int),
        ensures
            final(self).wf(),
            final(self).original@ == old(self).original@,
            final(self).add@ == old(self).add@,
            final(self).text_spec() == old(self).text_spec(),
            final(self).pieces@.len() == old(self).pieces@.len() + 1,
            final(self).pieces@.take(index as int) == old(self).pieces@.take(index as int),
            final(self).pieces@.take(index + 1) == old(self).pieces@.take(index as int) + seq![final(self).pieces@[index as int]],
            final(self).pieces@[index as int].len == inner,
            final(self).pieces@.skip(index + 2) == old(self).pieces@.skip(index + 1),
            final(self).pieces@ == cut_at(old(self).pieces@, index as int, inner as int),
    {
        let ghost o = self.original@;
        let ghost a = self.add@;
        let ghost ps = self.pieces@;
        let piece = self.pieces[index];
        proof {
            assert(piece_ok(o, a, ps[index as int]));
            self.lemma_buffers_bounded();
            assert(self.pieces.len() == ps.len());
        }
        let ghost pb = piece_bytes(o, a, piece);
        let split_point = piece.start + inner;
        let left = Piece { source: piece.source, start: piece.start, len: inner };
        let right = Piece { source: piece.source, start: split_point, len: piece.len - inner };
        proof {
            lemma_valid_subrange(pb, 0, inner as int);
            lemma_valid_subrange(pb, inner as int, pb.len() as int);
            assert(piece_bytes(o, a, left) =~= pb.subrange(0, inner as int));
            assert(piece_bytes(o, a, right) =~= pb.subrange(inner as int, pb.len() as int));
            assert(piece_bytes(o, a, left) + piece_bytes(o, a, right) =~= pb);
            lemma_replace_by_two(o, a, ps, index as int, left, right);
        }
        self.pieces.set(index, left);
        self.pieces.insert(index + 1, right);
        proof {
            let np = self.pieces@;
            assert(np =~= ps.take(index as int) + seq![left, right] + ps.skip(index + 1));
            assert(np.take(index as int) =~= ps.take(index as int));
            assert(np.skip(index + 2) =~= ps.skip(index + 1));
            assert(np =~= cut_at(ps, index as int, inner as int));
        }
    }

    /// Makes `offset` fall between two pieces and returns the index of the piece
    /// that starts there (or the number of pieces at the end of the text).
    fn split_at_offset(&mut self, offset: usize) -> (r: Result<usize, DocumentError>)
        requires
            old(self).wf(),
        ensures
            final(self).wf(),
            final(self).original@ == old(self).original@,
            final(self).add@ == old(self).add@,
            final(self).text_spec() == old(self).text_spec(),
            final(self).pieces@.len() >= old(self).pieces@.len(),
            r is Err ==> final(self).pieces@ == old(self).pieces@,
            offset > old(self).text_spec().len() ==> r == Err::<usize, DocumentError>(
                DocumentError::RangeOutOfBounds {
                    len: old(self).len_bytes,
                    start: TextOffset::spec_new(offset),
                    end: TextOffset::spec_new(offset),
                },
            ),
            offset <= old(self).text_spec().len() && !at_char_boundary(old(self).text_spec(), offset as int)
                ==> r == Err::<usize, DocumentError>(
                DocumentError::InvalidUtf8Boundary { offset: TextOffset::spec_new(offset) },
            ),
            offset <= old(self).text_spec().len() && at_char_boundary(old(self).text_spec(), offset as int)
                ==> r is Ok,
            r matches Ok(idx) ==> {
                &&& idx <= final(self).pieces@.len()
                &&& total_len(final(self).pieces@.take(idx as int)) == offset
                &&& forall|s: int|
                    0 <= s <= old(self).pieces@.len() && total_len(old(self).pieces@.take(s)) <= offset
                        ==> #[trigger] final(self).pieces@.take(s) == old(self).pieces@.take(s)
                &&& final(self).pieces@.len() <= old(self).pieces@.len() + 1
                &&& (final(self).pieces@ == old(self).pieces@ || {
                    let w = offset - total_len(old(self).pieces@.take(idx - 1));
                    &&& 0 < idx <= old(self).pieces@.len()
                    &&& 0 < w < old(self).pieces@[idx - 1].len
                    &&& final(self).pieces@ == cut_at(old(self).pieces@, idx - 1, w)
                })
            },
    {
        let ghost o = self.original@;
        let ghost a = self.add@;
        let ghost ps = self.pieces@;
        proof {
            lemma_pieces_len(o, a, ps);
            assert(ps.take(0) =~= Seq::<Piece>::empty());
            assert(ps.take(ps.len() as int) =~= ps);
        }
        if offset > self.len_bytes {
            return Err(
                DocumentError::RangeOutOfBounds {
                    len: self.len_bytes,
                    start: TextOffset::new(offset),
                    end: TextOffset::new(offset),
                },
            );
        }
        if offset == 0 {
            return Ok(0);
        }
        if offset == self.len_bytes {
            return Ok(self.pieces.len());
        }
        let mut consumed: usize = 0;
        let mut index: usize = 0;
        proof {
            assert(self.pieces.len() == ps.len());
        }
        while index < self.pieces.len()
            invariant
                self.wf(),
                self.original@ == o,
                self.add@ == a,
                self.pieces@ == ps,
                o == old(self).original@,
                a == old(self).add@,
                ps == old(self).pieces@,
                ps.len() <= usize::MAX,
                self.text_spec().len() == self.len_bytes,
                0 < offset < self.len_bytes,
                index <= ps.len(),
                consumed == total_len(ps.take(index as int)),
                consumed < offset,
            decreases ps.len() - index,
        {
            let piece = self.pieces[index];
            proof {
                lemma_take_step(o, a, ps, index as int);
                lemma_take_monotone(o, a, ps, index + 1, ps.len() as int);
                assert(ps.take(ps.len() as int) =~= ps);
                assert(piece_ok(o, a, ps[index as int]));
                self.lemma_buffers_bounded();
            }
            let next_consumed = consumed + piece.len;
            if offset == consumed {
                return Ok(index);
            }
            if offset == next_consumed {
                proof {
                    lemma_prefix_boundary(o, a, ps, index + 1);
                }
                return Ok(index + 1);
            }
            if offset < next_consumed {
                let inner_offset = offset - consumed;
                let split_point = piece.start + inner_offset;
                let ghost pb = piece_bytes(o, a, piece);
                proof {
                    lemma_around(o, a, ps, index as int);
                    assert(self.text_spec()[offset as int] == pb[inner_offset as int]);
                }
                let buffer = self.buffer_for(piece.source);
                if is_continuation(buffer[split_point]) {
                    return Err(DocumentError::InvalidUtf8Boundary { offset: TextOffset::new(offset) });
                }
                proof {
                    assert(at_char_boundary(pb, inner_offset as int));
                }
                self.split_piece(index, inner_offset);
                proof {
                    let np = self.pieces@;
                    let left = np[index as int];
                    lemma_pieces_concat(o, a, ps.take(index as int), seq![left]);
                    lemma_pieces_single(o, a, left);
                    assert forall|s: int|
                        0 <= s <= ps.len() && total_len(ps.take(s)) <= offset
                            implies #[trigger] np.take(s) == ps.take(s) by {
                        if s > index {
                            lemma_take_monotone(o, a, ps, index + 1, s);
                        }
                        assert(np.take(s) =~= ps.take(s));
                    }
                }
                return Ok(index + 1);
            }
            consumed = next_consumed;
            index = index + 1;
        }
        proof {
            assert(ps.take(ps.len() as int) =~= ps);
        }
        Ok(self.pieces.len())
    }

    /// Joins neighbouring pieces that are contiguous in the same buffer.
    fn merge_adjacent_pieces(&mut self)
        requires
            old(self).wf(),
        ensures
            final(self).wf(),
            final(self).original@ == old(self).original@,
            final(self).add@ == old(self).add@,
            final(self).text_spec() == old(self).text_spec(),
            pieces_merged(final(self).pieces@),
            final(self).pieces@.len() <= old(self).pieces@.len(),
    {
        if self.pieces.len() == 0 {
            return;
        }
        let ghost o = self.original@;
        let ghost a = self.add@;
        let ghost ps = self.pieces@;
        let mut merged: Vec<Piece> = Vec::new();
        let mut i: usize = 0;
        proof {
            assert(ps.take(0) =~= Seq::<Piece>::empty());
        }
        while i < self.pieces.len()
            invariant
                self.wf(),
                self.original@ == o,
                self.add@ == a,
                self.pieces@ == ps,
                i <= ps.len(),
                pieces_ok(o, a, merged@),
                pieces_bytes(o, a, merged@) == pieces_bytes(o, a, ps.take(i as int)),
                total_len(merged@) == total_len(ps.take(i as int)),
                pieces_merged(merged@),
                merged@.len() <= i,
            decreases ps.len() - i,
        {
            let piece = self.pieces[i];
            proof {
                lemma_take_step(o, a, ps, i as int);
                assert(piece_ok(o, a, ps[i as int]));
                self.lemma_buffers_bounded();
            }
            if piece.len == 0 {
                i = i + 1;
                continue;
            }
            let n = merged.len();
            if n > 0 {
                let last = merged[n - 1];
                proof {
                    assert(piece_ok(o, a, merged@[n - 1]));
                }
                if last.source == piece.source && last.start + last.len == piece.start {
                    let joined = Piece { source: last.source, start: last.start, len: last.len + piece.len };
                    let ghost old_merged = merged@;
                    merged.set(n - 1, joined);
                    proof {
                        let src = source_bytes(o, a, piece.source);
                        assert(piece_bytes(o, a, joined) =~= piece_bytes(o, a, last) + piece_bytes(o, a, piece));
                        valid_utf8_concat(piece_bytes(o, a, last), piece_bytes(o, a, piece));
                        assert(merged@.drop_last() =~= old_merged.drop_last());
                        assert(old_merged.last() == last);
                        assert(pieces_bytes(o, a, merged@) =~= pieces_bytes(o, a, old_merged) + piece_bytes(o, a, piece));
                        assert forall|k: int| 0 <= k < merged@.len() implies #[trigger] piece_ok(o, a, merged@[k]) by {
                            if k < n - 1 {
                                assert(merged@[k] == old_merged[k]);
                            }
                        }
                        assert forall|k: int| 0 <= k && k + 1 < merged@.len() implies !#[trigger] contiguous(
                            merged@[k],
                            merged@[k + 1],
                        ) by {
                            assert(merged@[k] == old_merged[k]);
                            assert(!contiguous(old_merged[k], old_merged[k + 1]));
                        }
                    }
                    i = i + 1;
                    continue;
                }
            }
            let ghost old_merged = merged@;
            merged.push(piece);
            proof {
                assert(merged@.drop_last() =~= old_merged);
                assert forall|k: int| 0 <= k < merged@.len() implies #[trigger] piece_ok(o, a, merged@[k]) by {
                    if k < n {
                        assert(merged@[k] == old_merged[k]);
                    }
                }
                assert forall|k: int| 0 <= k && k + 1 < merged@.len() implies !#[trigger] contiguous(
                    merged@[k],
                    merged@[k + 1],
                ) by {
                    assert(merged@[k] == old_merged[k]);
                    if k + 1 < n {
                        assert(merged@[k + 1] == old_merged[k + 1]);
                        assert(!contiguous(old_merged[k], old_merged[k + 1]));
                    }
                }
            }
            i = i + 1;
        }
        proof {
            assert(ps.take(ps.len() as int) =~= ps);
        }
        self.pieces = merged;
    }

    /// Removes the bytes of `range`, whose bounds are character boundaries.
    fn remove_range(&mut self, range: TextRange) -> (r: Result<(), DocumentError>)
        requires
            old(self).wf(),
            range.end()@ <= old(self).text_spec().len(),
            at_char_boundary(old(self).text_spec(), range.start()@ as int),
            at_char_boundary(old(self).text_spec(), range.end()@ as int),
        ensures
            r is Ok,
            final(self).wf(),
            final(self).original@ == old(self).original@,
            final(self).add@ == old(self).add@,
            final(self).text_spec() == splice(
                old(self).text_spec(),
                range.start()@ as int,
                range.end()@ as int,
                Seq::empty(),
            ),
    {
        proof {
            use_type_invariant(range);
            lemma_pieces_len(self.original@, self.add@, self.pieces@);
        }
        let ghost o = self.original@;
        let ghost a = self.add@;
        let ghost t = self.text_spec();
        let start_index = self.split_at_offset(range.start().value())?;
        let ghost p1 = self.pieces@;
        let end_index = self.split_at_offset(range.end().value())?;
        let ghost p2 = self.pieces@;
        proof {
            assert(p2.take(start_index as int) == p1.take(start_index as int));
            if start_index > end_index {
                lemma_take_monotone(o, a, p2, end_index as int, start_index as int);
            }
            assert(p2 =~= p2.take(start_index as int) + p2.subrange(start_index as int, end_index as int)
                + p2.skip(end_index as int));
            assert(p2.take(end_index as int) =~= p2.take(start_index as int) + p2.subrange(
                start_index as int,
                end_index as int,
            ));
            lemma_pieces_concat(o, a, p2.take(start_index as int), p2.subrange(start_index as int, end_index as int));
            lemma_pieces_concat(o, a, p2.take(end_index as int), p2.skip(end_index as int));
            assert(p2.take(end_index as int) + p2.skip(end_index as int) =~= p2);
            lemma_pieces_concat(o, a, p2.take(start_index as int), p2.skip(end_index as int));
            assert(pieces_ok(o, a, p2.take(start_index as int)));
            assert(pieces_ok(o, a, p2.take(end_index as int)));
            lemma_pieces_len(o, a, p2.take(start_index as int));
            lemma_pieces_len(o, a, p2.take(end_index as int));
        }
        let mut tail = self.pieces.split_off(end_index);
        self.pieces.truncate(start_index);
        self.pieces.append(&mut tail);
        self.len_bytes = self.len_bytes - range.len();
        proof {
            let np = self.pieces@;
            assert(np =~= p2.take(start_index as int) + p2.skip(end_index as int));
            assert forall|i: int| 0 <= i < np.len() implies #[trigger] piece_ok(o, a, np[i]) by {
                if i < start_index {
                    assert(np[i] == p2[i]);
                } else {
                    assert(np[i] == p2[i - start_index + end_index]);
                }
            }
            let before = pieces_bytes(o, a, p2.take(start_index as int));
            let mid = pieces_bytes(o, a, p2.subrange(start_index as int, end_index as int));
            let after = pieces_bytes(o, a, p2.skip(end_index as int));
            assert(t == before + mid + after);
            assert(t.subrange(0, range.start()@ as int) =~= before);
            assert(t.subrange(range.end()@ as int, t.len() as int) =~= after);
            assert(self.text_spec() =~= splice(t, range.start()@ as int, range.end()@ as int, Seq::empty()));
        }
        self.merge_adjacent_pieces();
        Ok(())
    }

    /// Inserts `piece` at `offset`, a character boundary.
    fn insert_piece(&mut self, offset: TextOffset, piece: Piece) -> (r: Result<(), DocumentError>)
        requires
            old(self).wf(),
            piece.start + piece.len <= source_bytes(old(self).original@, old(self).add@, piece.source).len(),
            valid_utf8(piece_bytes(old(self).original@, old(self).add@, piece)),
            at_char_boundary(old(self).text_spec(), offset@ as int),
            offset@ <= old(self).text_spec().len(),
            old(self).text_spec().len() + piece.len <= usize::MAX,
        ensures
            r is Ok,
            final(self).wf(),
            final(self).original@ == old(self).original@,
            final(self).add@ == old(self).add@,
            final(self).text_spec() == splice(
                old(self).text_spec(),
                offset@ as int,
                offset@ as int,
                piece_bytes(old(self).original@, old(self).add@, piece),
            ),
    {
        let ghost o = self.original@;
        let ghost a = self.add@;
        let ghost t = self.text_spec();
        proof {
            lemma_pieces_len(o, a, self.pieces@);
        }
        let index = self.split_at_offset(offset.value())?;
        let ghost ps = self.pieces@;
        proof {
            lemma_pieces_len(o, a, ps);
            assert(ps =~= ps.take(index as int) + ps.skip(index as int));
            lemma_pieces_concat(o, a, ps.take(index as int), ps.skip(index as int));
            assert(pieces_ok(o, a, ps.take(index as int)));
            lemma_pieces_len(o, a, ps.take(index as int));
            assert(t.subrange(0, offset@ as int) =~= pieces_bytes(o, a, ps.take(index as int)));
            assert(t.subrange(offset@ as int, t.len() as int) =~= pieces_bytes(o, a, ps.skip(index as int)));
        }
        if piece.len > 0 {
            self.pieces.insert(index, piece);
            self.len_bytes = self.len_bytes + piece.len;
            proof {
                let np = self.pieces@;
                assert(np =~= ps.take(index as int) + seq![piece] + ps.skip(index as int));
                lemma_pieces_concat(o, a, ps.take(index as int) + seq![piece], ps.skip(index as int));
                lemma_pieces_concat(o, a, ps.take(index as int), seq![piece]);
                lemma_pieces_single(o, a, piece);
                assert forall|i: int| 0 <= i < np.len() implies #[trigger] piece_ok(o, a, np[i]) by {
                    if i < index {
                        assert(np[i] == ps[i]);
                    } else if i > index {
                        assert(np[i] == ps[i - 1]);
                    }
                }
                assert(self.text_spec() =~= splice(t, offset@ as int, offset@ as int, piece_bytes(o, a, piece)));
            }
            self.merge_adjacent_pieces();
        } else {
            proof {
                assert(piece_bytes(o, a, piece) =~= Seq::<u8>::empty());
                assert(self.text_spec() =~= splice(t, offset@ as int, offset@ as int, piece_bytes(o, a, piece)));
            }
        }
        Ok(())
    }

    fn boundary_at(&self, offset: usize) -> (b: bool)
        requires
            self.wf(),
        ensures
            b == at_char_boundary(self.text_spec(), offset as int),
    {
        let ghost o = self.original@;
        let ghost a = self.add@;
        let ghost ps = self.pieces@;
        proof {
            lemma_pieces_len(o, a, ps);
            assert(ps.take(0) =~= Seq::<Piece>::empty());
        }
        if offset > self.len_bytes {
            return false;
        }
        if offset == self.len_bytes {
            return true;
        }
        let mut consumed: usize = 0;
        let mut index: usize = 0;
        while index < self.pieces.len()
            invariant
                self.wf(),
                self.pieces@ == ps,
                self.original@ == o,
                self.add@ == a,
                self.text_spec().len() == self.len_bytes,
                offset < self.len_bytes,
                index <= ps.len(),
                consumed == total_len(ps.take(index as int)),
                consumed <= offset,
                consumed == offset ==> index == 0 && offset == 0,
            decreases ps.len() - index,
        {
            let piece = self.pieces[index];
            proof {
                lemma_take_step(o, a, ps, index as int);
                lemma_take_monotone(o, a, ps, index + 1, ps.len() as int);
                assert(ps.take(ps.len() as int) =~= ps);
                assert(piece_ok(o, a, ps[index as int]));
                self.lemma_buffers_bounded();
            }
            let next_consumed = consumed + piece.len;
            if offset == consumed || offset == next_consumed {
                proof {
                    if offset == next_consumed {
                        lemma_prefix_boundary(o, a, ps, index + 1);
                    } else {
                        assert(offset == 0);
                    }
                    assert(at_char_boundary(pieces_bytes(o, a, ps), offset as int));
                }
                return true;
            }
            if offset < next_consumed {
                let inner_offset = offset - consumed;
                proof {
                    lemma_around(o, a, ps, index as int);
                    assert(self.text_spec()[offset as int] == piece_bytes(o, a, piece)[inner_offset as int]);
                }
                let buffer = self.buffer_for(piece.source);
                return !is_continuation(buffer[piece.start + inner_offset]);
            }
            consumed = next_consumed;
            index = index + 1;
        }
        proof {
            assert(ps.take(ps.len() as int) =~= ps);
        }
        false
    }

    /// The bytes of all pieces, in order.
    fn collect_bytes(&self) -> (b: Vec<u8>)
        requires
            self.wf(),
        ensures
            b@ == self.text_spec(),
    {
        let mut out: Vec<u8> = Vec::new();
        let mut i: usize = 0;
        proof {
            assert(self.pieces@.take(0) =~= Seq::<Piece>::empty());
        }
        while i < self.pieces.len()
            invariant
                self.wf(),
                i <= self.pieces@.len(),
                out@ == pieces_bytes(self.original@, self.add@, self.pieces@.take(i as int)),
            decreases self.pieces@.len() - i,
        {
            let piece = self.pieces[i];
            proof {
                lemma_take_step(self.original@, self.add@, self.pieces@, i as int);
                assert(piece_ok(self.original@, self.add@, self.pieces@[i as int]));
                self.lemma_buffers_bounded();
            }
            let buffer = self.buffer_for(piece.source);
            push_bytes(&mut out, buffer, piece.start, piece.start + piece.len);
            i = i + 1;
        }
        proof {
            assert(self.pieces@.take(self.pieces@.len() as int) =~= self.pieces@);
        }
        out
    }
}

impl TextBuffer for PieceTable {
    closed spec fn text(&self) -> Seq<u8> {
        self.text_spec()
    }

    closed spec fn well_formed(&self) -> bool {
        self.wf()
    }

    proof fn lemma_well_formed(&self) {
        lemma_pieces_len(self.original@, self.add@, self.pieces@);
    }

    fn len_bytes(&self) -> (n: usize) {
        proof {
            lemma_pieces_len(self.original@, self.add@, self.pieces@);
        }
        self.len_bytes
    }

    fn snapshot(&self) -> (s: TextSnapshot) {
        let bytes = self.collect_bytes();
        proof {
            lemma_pieces_len(self.original@, self.add@, self.pieces@);
        }
        TextSnapshot::new(string_of(bytes))
    }

    fn slice_string(&self, range: TextRange) -> (r: Result<String, DocumentError>) {
        proof {
            use_type_invariant(range);
            lemma_pieces_len(self.original@, self.add@, self.pieces@);
        }
        let len = self.len_bytes;
        if range.end().value() > len {
            return Err(DocumentError::RangeOutOfBounds { len, start: range.start(), end: range.end() });
        }
        if !self.is_char_boundary(range.start()) {
            return Err(DocumentError::InvalidUtf8Boundary { offset: range.start() });
        }
        if !self.is_char_boundary(range.end()) {
            return Err(DocumentError::InvalidUtf8Boundary { offset: range.end() });
        }
        let all = self.collect_bytes();
        let mut out: Vec<u8> = Vec::new();
        push_bytes(&mut out, &all, range.start().value(), range.end().value());
        proof {
            assert(out@ =~= all@.subrange(range.start()@ as int, range.end()@ as int));
            lemma_valid_subrange(all@, range.start()@ as int, range.end()@ as int);
        }
        Ok(string_of(out))
    }

    fn is_char_boundary(&self, offset: TextOffset) -> (b: bool) {
        self.boundary_at(offset.value())
    }

    fn insert(&mut self, offset: TextOffset, text: &str) -> (r: Result<(), DocumentError>) {
        if !self.is_char_boundary(offset) {
            return Err(DocumentError::InvalidUtf8Boundary { offset });
        }
        let bytes = bytes_of(text);
        let piece = self.append_to_add(&bytes);
        proof {
            lemma_pieces_len(self.original@, self.add@, self.pieces@);
        }
        self.insert_piece(offset, piece)
    }

    fn delete(&mut self, range: TextRange) -> (r: Result<(), DocumentError>) {
        proof {
            use_type_invariant(range);
            lemma_pieces_len(self.original@, self.add@, self.pieces@);
        }
        if range.end().value() > self.len_bytes {
            return Err(
                DocumentError::RangeOutOfBounds {
                    len: self.len_bytes,
                    start: range.start(),
                    end: range.end(),
                },
            );
        }
        if !self.is_char_boundary(range.start()) {
            return Err(DocumentError::InvalidUtf8Boundary { offset: range.start() });
        }
        if !self.is_char_boundary(range.end()) {
            return Err(DocumentError::InvalidUtf8Boundary { offset: range.end() });
        }
        self.remove_range(range)
    }

    fn replace(&mut self, range: TextRange, text: &str) -> (r: Result<(), DocumentError>) {
        let ghost t = self.text_spec();
        proof {
            use_type_invariant(range);
            lemma_pieces_len(self.original@, self.add@, self.pieces@);
        }
        self.delete(range)?;
        proof {
            let s = range.start()@ as int;
            let e = range.end()@ as int;
            let head = t.subrange(0, s);
            let tail = t.subrange(e, t.len() as int);
            lemma_valid_subrange(t, 0, s);
            lemma_valid_subrange(t, e, t.len() as int);
            assert(self.text_spec() =~= head + tail);
            lemma_boundary_concat(head, tail, s);
            lemma_pieces_len(self.original@, self.add@, self.pieces@);
        }
        let r = self.insert(range.start(), text);
        proof {
            let s = range.start()@ as int;
            let e = range.end()@ as int;
            assert(self.text_spec() =~= splice(t, s, e, encode_utf8(text@)));
        }
        r
    }
}

} // verus!
