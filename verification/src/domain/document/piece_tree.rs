use vstd::prelude::*;
use vstd::utf8::*;

use super::{
    at_char_boundary, bytes_at_char_boundary, bytes_of, insert_error, lemma_boundary_concat,
    lemma_newline_starts_concat, lemma_newline_starts_shift, lemma_valid_subrange, newline_starts, push_bytes,
    range_error, splice, string_of, DocumentError, TextBuffer, TextOffset, TextRange, TextSnapshot,
};

verus! {

#[derive(Debug, Clone, Copy, PartialEq, Eq, Structural)]
enum BufferSource {
    Original,
    Add,
}

#[derive(Debug, Clone, Copy, PartialEq, Eq, Structural)]
struct Piece {
    source: BufferSource,
    start: usize,
    len: usize,
    newline_count: usize,
}

#[derive(Debug, PartialEq, Eq)]
struct Node {
    piece: Piece,
    priority: u64,
    left: Option<Box<Node>>,
    right: Option<Box<Node>>,
    subtree_bytes: usize,
    subtree_newlines: usize,
}

impl Clone for Node {
    fn clone(&self) -> (c: Self)
        ensures
            c == *self,
        decreases self,
    {
        let left = match &self.left {
            Some(n) => Some(Box::new((**n).clone())),
            None => None,
        };
        let right = match &self.right {
            Some(n) => Some(Box::new((**n).clone())),
            None => None,
        };
        Node {
            piece: self.piece,
            priority: self.priority,
            left,
            right,
            subtree_bytes: self.subtree_bytes,
            subtree_newlines: self.subtree_newlines,
        }
    }
}

impl Clone for PieceTree {
    fn clone(&self) -> (c: Self)
        ensures
            c.text() == self.text(),
            c.well_formed() == self.well_formed(),
    {
        let root = match &self.root {
            Some(n) => Some(Box::new((**n).clone())),
            None => None,
        };
        let c = PieceTree {
            original: self.original.clone(),
            add: self.add.clone(),
            root,
            priority_seed: self.priority_seed,
        };
        proof {
            assert(c.original@ == self.original@);
            assert(c.add@ == self.add@);
        }
        c
    }
}

/// A text buffer made of pieces of two append-only byte buffers, kept in a treap
/// ordered by position; every node knows the bytes and line feeds of its subtree.
#[derive(Debug, PartialEq, Eq)]
pub struct PieceTree {
    original: Vec<u8>,
    add: Vec<u8>,
    root: Option<Box<Node>>,
    priority_seed: u64,
}

/// The number of line feeds in `bytes`.
pub open spec fn newline_count(bytes: Seq<u8>) -> nat {
    newline_starts(bytes, 0).len()
}

/// Line feeds of a concatenation are those of its parts.
proof fn lemma_newline_count_concat(a: Seq<u8>, b: Seq<u8>)
    ensures
        newline_count(a + b) == newline_count(a) + newline_count(b),
{
    lemma_newline_starts_concat(a, b, 0);
    lemma_newline_starts_shift(b, 0, a.len() as int);
}

spec fn source_bytes(original: Seq<u8>, add: Seq<u8>, source: BufferSource) -> Seq<u8> {
    match source {
        BufferSource::Original => original,
        BufferSource::Add => add,
    }
}

spec fn piece_bytes(original: Seq<u8>, add: Seq<u8>, p: Piece) -> Seq<u8> {
    source_bytes(original, add, p.source).subrange(p.start as int, p.start + p.len)
}

spec fn piece_ok(original: Seq<u8>, add: Seq<u8>, p: Piece) -> bool {
    &&& p.len > 0
    &&& p.start + p.len <= source_bytes(original, add, p.source).len()
    &&& valid_utf8(piece_bytes(original, add, p))
    &&& p.newline_count == newline_count(piece_bytes(original, add, p))
}

/// The text a subtree holds, in order.
#[verifier::opaque]
spec fn tree_bytes(original: Seq<u8>, add: Seq<u8>, t: Option<Box<Node>>) -> Seq<u8>
    decreases t,
{
    match t {
        None => Seq::empty(),
        Some(n) => tree_bytes(original, add, n.left) + piece_bytes(original, add, n.piece) + tree_bytes(
            original,
            add,
            n.right,
        ),
    }
}

/// Every piece of the subtree is sound and every node's totals are right.
#[verifier::opaque]
spec fn tree_ok(original: Seq<u8>, add: Seq<u8>, t: Option<Box<Node>>) -> bool
    decreases t,
{
    match t {
        None => true,
        Some(n) => {
            &&& piece_ok(original, add, n.piece)
            &&& tree_ok(original, add, n.left)
            &&& tree_ok(original, add, n.right)
            &&& n.subtree_bytes == tree_bytes(original, add, Some(n)).len()
            &&& n.subtree_newlines == newline_count(tree_bytes(original, add, Some(n)))
        },
    }
}

/// One level of the definitions of a subtree's text and soundness.
proof fn lemma_tree_node(o: Seq<u8>, a: Seq<u8>, t: Option<Box<Node>>)
    ensures
        t is None ==> tree_bytes(o, a, t) == Seq::<u8>::empty() && tree_ok(o, a, t),
        t matches Some(n) ==> tree_bytes(o, a, t) == tree_bytes(o, a, n.left) + piece_bytes(o, a, n.piece)
            + tree_bytes(o, a, n.right),
        t matches Some(n) ==> (tree_ok(o, a, t) <==> {
            &&& piece_ok(o, a, n.piece)
            &&& tree_ok(o, a, n.left)
            &&& tree_ok(o, a, n.right)
            &&& n.subtree_bytes == tree_bytes(o, a, t).len()
            &&& n.subtree_newlines == newline_count(tree_bytes(o, a, t))
        }),
{
    reveal_with_fuel(tree_bytes, 1);
    reveal_with_fuel(tree_ok, 1);
}

/// The text of a sound subtree is valid UTF-8.
proof fn lemma_tree_valid(o: Seq<u8>, a: Seq<u8>, t: Option<Box<Node>>)
    requires
        tree_ok(o, a, t),
    ensures
        valid_utf8(tree_bytes(o, a, t)),
    decreases t,
{
    lemma_tree_node(o, a, t);
    if let Some(n) = t {
        lemma_tree_valid(o, a, n.left);
        lemma_tree_valid(o, a, n.right);
        let l = tree_bytes(o, a, n.left);
        let p = piece_bytes(o, a, n.piece);
        let r = tree_bytes(o, a, n.right);
        valid_utf8_concat(l, p);
        valid_utf8_concat(l + p, r);
    }
}

/// Subtrees that only use the first `a.len()` bytes of the add buffer read the
/// same after the add buffer grows.
proof fn lemma_tree_frame(o: Seq<u8>, a: Seq<u8>, a2: Seq<u8>, t: Option<Box<Node>>)
    requires
        tree_ok(o, a, t),
        a2.len() >= a.len(),
        a2.subrange(0, a.len() as int) == a,
    ensures
        tree_ok(o, a2, t),
        tree_bytes(o, a2, t) == tree_bytes(o, a, t),
    decreases t,
{
    lemma_tree_node(o, a, t);
    lemma_tree_node(o, a2, t);
    if let Some(n) = t {
        lemma_tree_frame(o, a, a2, n.left);
        lemma_tree_frame(o, a, a2, n.right);
        if n.piece.source == BufferSource::Add {
            assert(piece_bytes(o, a2, n.piece) =~= piece_bytes(o, a, n.piece));
        }
    }
}

/// The totals a node carries, from its children's totals and its piece.
fn subtree_bytes(node: &Option<Box<Node>>) -> (n: usize)
    ensures
        node matches Some(b) ==> n == b.subtree_bytes,
        node is None ==> n == 0,
{
    match node {
        Some(b) => b.subtree_bytes,
        None => 0,
    }
}

fn subtree_newlines(node: &Option<Box<Node>>) -> (n: usize)
    ensures
        node matches Some(b) ==> n == b.subtree_newlines,
        node is None ==> n == 0,
{
    match node {
        Some(b) => b.subtree_newlines,
        None => 0,
    }
}

impl TextBuffer for PieceTree {
    closed spec fn text(&self) -> Seq<u8> {
        self.text_spec()
    }

    closed spec fn well_formed(&self) -> bool {
        self.wf()
    }

    proof fn lemma_well_formed(&self) {
        lemma_tree_valid(self.original@, self.add@, self.root);
        lemma_tree_node(self.original@, self.add@, self.root);
    }

    fn len_bytes(&self) -> (n: usize) {
        proof {
            lemma_tree_node(self.original@, self.add@, self.root);
        }
        subtree_bytes(&self.root)
    }

    fn snapshot(&self) -> (s: TextSnapshot) {
        proof {
            lemma_tree_valid(self.original@, self.add@, self.root);
        }
        let mut bytes: Vec<u8> = Vec::new();
        self.push_snapshot_text(&self.root, &mut bytes);
        proof {
            assert(Seq::<u8>::empty() + self.text_spec() =~= self.text_spec());
        }
        TextSnapshot::new(string_of(bytes))
    }

    fn slice_string(&self, range: TextRange) -> (r: Result<String, DocumentError>) {
        proof {
            use_type_invariant(range);
        }
        let len = self.len_bytes();
        if range.end().value() > len {
            return Err(DocumentError::RangeOutOfBounds { len, start: range.start(), end: range.end() });
        }
        if !self.is_char_boundary(range.start()) {
            return Err(DocumentError::InvalidUtf8Boundary { offset: range.start() });
        }
        if !self.is_char_boundary(range.end()) {
            return Err(DocumentError::InvalidUtf8Boundary { offset: range.end() });
        }
        let mut bytes: Vec<u8> = Vec::new();
        self.push_range_text(&self.root, 0, range, &mut bytes);
        proof {
            let text = self.text_spec();
            lemma_tree_valid(self.original@, self.add@, self.root);
            lemma_valid_subrange(text, range.start()@ as int, range.end()@ as int);
            lemma_clip_inside(text, range.start()@ as int, range.end()@ as int);
            assert(bytes@ =~= text.subrange(range.start()@ as int, range.end()@ as int));
        }
        Ok(string_of(bytes))
    }

    fn is_char_boundary(&self, offset: TextOffset) -> (b: bool) {
        let len = self.len_bytes();
        if offset.value() > len {
            return false;
        }
        if offset.value() == len {
            return true;
        }
        match self.locate_piece(offset.value()) {
            None => false,
            Some((piece, inner_offset)) => {
                if inner_offset == 0 || inner_offset == piece.len {
                    true
                } else {
                    let buffer = self.buffer_for(piece.source);
                    proof {
                        self.lemma_buffers_bounded();
                        let pb = piece_bytes(self.original@, self.add@, piece);
                        assert(pb[inner_offset as int] == buffer@[piece.start + inner_offset]);
                    }
                    bytes_at_char_boundary(buffer, piece.start + inner_offset)
                }
            },
        }
    }

    fn insert(&mut self, offset: TextOffset, text: &str) -> (r: Result<(), DocumentError>) {
        if !self.is_char_boundary(offset) {
            return Err(DocumentError::InvalidUtf8Boundary { offset });
        }
        let ghost before = self.text_spec();
        let ghost o = self.original@;
        let ghost a = self.add@;
        proof {
            lemma_tree_node(o, a, self.root);
            lemma_tree_valid(o, a, self.root);
        }
        let piece = self.append_to_add(text);
        proof {
            assert(self.add@.subrange(0, a.len() as int) =~= a);
            lemma_tree_frame(o, a, self.add@, self.root);
        }
        let root = self.root.take();
        let (left, right) = match self.split(root, offset.value()) {
            Ok(parts) => parts,
            Err(e) => {
                return Err(e);
            },
        };
        let ghost a2 = self.add@;
        let middle = if piece.len == 0 {
            None
        } else {
            Some(self.new_node(piece))
        };
        proof {
            lemma_tree_node(o, a2, None);
            assert(tree_bytes(o, a2, middle) == encode_utf8(text@)) by {
                if piece.len > 0 {
                    assert(piece_bytes(o, a2, piece) =~= encode_utf8(text@));
                } else {
                    assert(encode_utf8(text@) =~= Seq::<u8>::empty());
                }
            }
        }
        let merged = merge(left, middle, Ghost(o), Ghost(a2));
        self.root = merge(merged, right, Ghost(o), Ghost(a2));
        proof {
            assert(self.text_spec() =~= splice(before, offset@ as int, offset@ as int, encode_utf8(text@)));
        }
        Ok(())
    }

    fn delete(&mut self, range: TextRange) -> (r: Result<(), DocumentError>) {
        proof {
            use_type_invariant(range);
        }
        let len = self.len_bytes();
        if range.end().value() > len {
            return Err(DocumentError::RangeOutOfBounds { len, start: range.start(), end: range.end() });
        }
        if !self.is_char_boundary(range.start()) {
            return Err(DocumentError::InvalidUtf8Boundary { offset: range.start() });
        }
        if !self.is_char_boundary(range.end()) {
            return Err(DocumentError::InvalidUtf8Boundary { offset: range.end() });
        }
        let ghost before = self.text_spec();
        let ghost o = self.original@;
        let ghost a = self.add@;
        proof {
            lemma_tree_valid(o, a, self.root);
        }
        let root = self.root.take();
        let (left, tail) = match self.split(root, range.start().value()) {
            Ok(parts) => parts,
            Err(e) => {
                return Err(e);
            },
        };
        proof {
            let t = tree_bytes(o, a, tail);
            let s = range.start()@ as int;
            assert(t =~= before.subrange(s, before.len() as int));
            lemma_tree_valid(o, a, tail);
            lemma_valid_subrange(before, 0, s);
            lemma_boundary_concat(before.subrange(0, s), t, range.end()@ as int);
            assert(before =~= before.subrange(0, s) + t);
        }
        let (_, right) = match self.split(tail, range.len()) {
            Ok(parts) => parts,
            Err(e) => {
                return Err(e);
            },
        };
        self.root = merge(left, right, Ghost(o), Ghost(a));
        proof {
            assert(self.text_spec() =~= splice(before, range.start()@ as int, range.end()@ as int, Seq::empty()));
        }
        Ok(())
    }

    fn replace(&mut self, range: TextRange, text: &str) -> (r: Result<(), DocumentError>) {
        let ghost before = self.text_spec();
        proof {
            lemma_tree_valid(self.original@, self.add@, self.root);
        }
        match self.delete(range) {
            Ok(()) => {},
            Err(e) => {
                return Err(e);
            },
        }
        proof {
            use_type_invariant(range);
            let s = range.start()@ as int;
            let mid = self.text_spec();
            assert(mid =~= before.subrange(0, s) + before.subrange(range.end()@ as int, before.len() as int));
            lemma_tree_valid(self.original@, self.add@, self.root);
            lemma_valid_subrange(before, 0, s);
            lemma_valid_subrange(before, range.end()@ as int, before.len() as int);
            lemma_boundary_concat(before.subrange(0, s), before.subrange(range.end()@ as int, before.len() as int), s);
        }
        let r = self.insert(range.start(), text);
        proof {
            assert(self.text_spec() =~= splice(before, range.start()@ as int, range.end()@ as int, encode_utf8(text@)));
        }
        r
    }
}

impl Node {
    fn new(piece: Piece, priority: u64) -> (n: Self)
        ensures
            n.piece == piece,
            n.priority == priority,
            n.left is None,
            n.right is None,
    {
        Self { piece, priority, left: None, right: None, subtree_bytes: 0, subtree_newlines: 0 }
    }

    /// Recomputes the node's totals from its children and its piece.
    fn recalc(&mut self, Ghost(o): Ghost<Seq<u8>>, Ghost(a): Ghost<Seq<u8>>)
        requires
            piece_ok(o, a, old(self).piece),
            tree_ok(o, a, old(self).left),
            tree_ok(o, a, old(self).right),
            tree_bytes(o, a, Some(Box::new(*old(self)))).len() <= usize::MAX,
        ensures
            tree_ok(o, a, Some(Box::new(*final(self)))),
            final(self).piece == old(self).piece,
            final(self).priority == old(self).priority,
            final(self).left == old(self).left,
            final(self).right == old(self).right,
    {
        let ghost l = tree_bytes(o, a, self.left);
        let ghost p = piece_bytes(o, a, self.piece);
        let ghost r = tree_bytes(o, a, self.right);
        proof {
            lemma_tree_node(o, a, self.left);
            lemma_tree_node(o, a, self.right);
            lemma_tree_node(o, a, Some(Box::new(*old(self))));
            lemma_newline_count_concat(l, p);
            lemma_newline_count_concat(l + p, r);
            lemma_newline_count_bound(l + p + r);
        }
        self.subtree_bytes = subtree_bytes(&self.left) + self.piece.len + subtree_bytes(&self.right);
        self.subtree_newlines = subtree_newlines(&self.left) + self.piece.newline_count + subtree_newlines(
            &self.right,
        );
        proof {
            lemma_tree_node(o, a, Some(Box::new(*self)));
        }
    }
}

/// A text has no more line feeds than bytes.
proof fn lemma_newline_count_bound(bytes: Seq<u8>)
    ensures
        newline_count(bytes) <= bytes.len(),
    decreases bytes.len(),
{
    if bytes.len() > 0 {
        lemma_newline_count_bound(bytes.drop_last());
    }
}

/// Joins two subtrees, every position of `left` before every position of `right`.
fn merge(left: Option<Box<Node>>, right: Option<Box<Node>>, Ghost(o): Ghost<Seq<u8>>, Ghost(a): Ghost<Seq<u8>>) -> (t:
    Option<Box<Node>>)
    requires
        tree_ok(o, a, left),
        tree_ok(o, a, right),
        tree_bytes(o, a, left).len() + tree_bytes(o, a, right).len() <= usize::MAX,
    ensures
        tree_ok(o, a, t),
        tree_bytes(o, a, t) == tree_bytes(o, a, left) + tree_bytes(o, a, right),
    decreases left, right,
{
    let ghost lb = tree_bytes(o, a, left);
    let ghost rb = tree_bytes(o, a, right);
    proof {
        lemma_tree_node(o, a, left);
        lemma_tree_node(o, a, right);
    }
    if left.is_none() {
        assert(lb + rb =~= rb);
        return right;
    }
    if right.is_none() {
        assert(lb + rb =~= lb);
        return left;
    }
    let mut l = left.unwrap();
    let mut r = right.unwrap();
    if l.priority > r.priority {
        let ghost ll = tree_bytes(o, a, l.left);
        let ghost lp = piece_bytes(o, a, l.piece);
        let ghost lr = tree_bytes(o, a, l.right);
        proof {
            assert(lb == ll + lp + lr);
        }
        let inner = l.right.take();
        let merged = merge(inner, Some(r), Ghost(o), Ghost(a));
        l.right = merged;
        proof {
            lemma_tree_node(o, a, Some(l));
            assert(tree_bytes(o, a, l.right) == lr + rb);
            assert(ll + lp + (lr + rb) =~= lb + rb);
        }
        l.recalc(Ghost(o), Ghost(a));
        proof {
            lemma_tree_node(o, a, Some(l));
        }
        Some(l)
    } else {
        let ghost rl = tree_bytes(o, a, r.left);
        let ghost rp = piece_bytes(o, a, r.piece);
        let ghost rr = tree_bytes(o, a, r.right);
        proof {
            assert(rb == rl + rp + rr);
        }
        let inner = r.left.take();
        let merged = merge(Some(l), inner, Ghost(o), Ghost(a));
        r.left = merged;
        proof {
            lemma_tree_node(o, a, Some(r));
            assert(tree_bytes(o, a, r.left) == lb + rl);
            assert(lb + rl + rp + rr =~= lb + rb);
        }
        r.recalc(Ghost(o), Ghost(a));
        proof {
            lemma_tree_node(o, a, Some(r));
        }
        Some(r)
    }
}

/// A split of a subtree's text at `k`, or the text itself past its end.
spec fn split_point(len: nat, offset: int) -> int {
    if offset < len {
        offset
    } else {
        len as int
    }
}

/// The priority drawn from `seed`: its bits mixed by three xor-shift and
/// multiply rounds, each product taken modulo 2^64.
spec fn mixed_priority(seed: u64) -> u64 {
    let v1 = (seed ^ (seed >> 30u64)).wrapping_mul(0xbf58_476d_1ce4_e5b9);
    let v2 = (v1 ^ (v1 >> 27u64)).wrapping_mul(0x94d0_49bb_1331_11eb);
    v2 ^ (v2 >> 31u64)
}

impl PieceTree {
    proof fn lemma_buffers_bounded(&self)
        ensures
            self.original@.len() <= usize::MAX,
            self.add@.len() <= usize::MAX,
    {
        assert(self.original.len() == self.original@.len());
        assert(self.add.len() == self.add@.len());
    }

    spec fn text_spec(self) -> Seq<u8> {
        tree_bytes(self.original@, self.add@, self.root)
    }

    spec fn wf(self) -> bool {
        tree_ok(self.original@, self.add@, self.root)
    }

    /// A tree holding `text`.
    pub fn new(text: &str) -> (t: Self)
        ensures
            t.well_formed(),
            t.text() == encode_utf8(text@),
    {
        let original = bytes_of(text);
        let mut tree = Self { original, add: Vec::new(), root: None, priority_seed: 0x9e37_79b9_7f4a_7c15 };
        proof {
            lemma_tree_node(tree.original@, tree.add@, None);
        }
        if tree.original.len() > 0 {
            let len = tree.original.len();
            proof {
                assert(tree.original@.subrange(0, len as int) =~= tree.original@);
            }
            let piece = tree.make_piece(BufferSource::Original, 0, len);
            let node = tree.new_node(piece);
            tree.root = Some(node);
            proof {
                lemma_tree_node(tree.original@, tree.add@, tree.root);
            }
        }
        tree
    }

    /// Advances the priority seed by a fixed odd step and gives the seed's bits
    /// mixed: a deterministic stream of well-spread priorities.
    fn next_priority(&mut self) -> (p: u64)
        ensures
            final(self).original == old(self).original,
            final(self).add == old(self).add,
            final(self).root == old(self).root,
            final(self).priority_seed == old(self).priority_seed.wrapping_add(0x9e37_79b9_7f4a_7c15),
            p == mixed_priority(final(self).priority_seed),
    {
        self.priority_seed = self.priority_seed.wrapping_add(0x9e37_79b9_7f4a_7c15);
        let mut value = self.priority_seed;
        value = (value ^ (value >> 30u64)).wrapping_mul(0xbf58_476d_1ce4_e5b9);
        value = (value ^ (value >> 27u64)).wrapping_mul(0x94d0_49bb_1331_11eb);
        value ^ (value >> 31u64)
    }

    /// A node holding only `piece`.
    fn new_node(&mut self, piece: Piece) -> (node: Box<Node>)
        requires
            piece_ok(old(self).original@, old(self).add@, piece),
        ensures
            final(self).original == old(self).original,
            final(self).add == old(self).add,
            final(self).root == old(self).root,
            tree_ok(old(self).original@, old(self).add@, Some(node)),
            tree_bytes(old(self).original@, old(self).add@, Some(node)) == piece_bytes(
                old(self).original@,
                old(self).add@,
                piece,
            ),
            node.left is None,
            node.right is None,
            node.piece == piece,
    {
        let ghost o = self.original@;
        let ghost a = self.add@;
        let mut node = Box::new(Node::new(piece, self.next_priority()));
        proof {
            lemma_tree_node(o, a, None);
            lemma_tree_node(o, a, Some(node));
            assert(Seq::<u8>::empty() + piece_bytes(o, a, piece) + Seq::<u8>::empty() =~= piece_bytes(o, a, piece));
        }
        node.recalc(Ghost(o), Ghost(a));
        proof {
            lemma_tree_node(o, a, Some(node));
        }
        node
    }

    fn buffer_for(&self, source: BufferSource) -> (b: &Vec<u8>)
        ensures
            b@ == source_bytes(self.original@, self.add@, source),
    {
        match source {
            BufferSource::Original => &self.original,
            BufferSource::Add => &self.add,
        }
    }

    /// The piece of `len > 0` bytes of `source` from `start`, with its line feeds counted.
    fn make_piece(&self, source: BufferSource, start: usize, len: usize) -> (p: Piece)
        requires
            len > 0,
            start + len <= source_bytes(self.original@, self.add@, source).len(),
            valid_utf8(source_bytes(self.original@, self.add@, source).subrange(start as int, start + len)),
        ensures
            piece_ok(self.original@, self.add@, p),
            p.source == source,
            p.start == start,
            p.len == len,
    {
        let buffer = self.buffer_for(source);
        let ghost bytes = buffer@;
        proof {
            self.lemma_buffers_bounded();
        }
        let end = start + len;
        let mut count: usize = 0;
        let mut i = start;
        proof {
            assert(bytes.subrange(start as int, start as int) =~= Seq::<u8>::empty());
        }
        while i < end
            invariant
                bytes == buffer@,
                start <= i <= end <= bytes.len(),
                count == newline_count(bytes.subrange(start as int, i as int)),
                count <= i - start,
            decreases end - i,
        {
            proof {
                assert(bytes.subrange(start as int, i + 1).drop_last() =~= bytes.subrange(start as int, i as int));
                assert(bytes.subrange(start as int, i + 1).last() == bytes[i as int]);
            }
            if buffer[i] == 10 {
                count = count + 1;
            }
            i = i + 1;
        }
        Piece { source, start, len, newline_count: count }
    }

    /// Appends `text` to the add buffer and gives the piece that reads it.
    fn append_to_add(&mut self, text: &str) -> (p: Piece)
        ensures
            final(self).original == old(self).original,
            final(self).root == old(self).root,
            final(self).add@ == old(self).add@ + encode_utf8(text@),
            p.source == BufferSource::Add,
            p.start == old(self).add@.len(),
            p.len == encode_utf8(text@).len(),
            p.len > 0 ==> piece_ok(final(self).original@, final(self).add@, p),
    {
        let bytes = bytes_of(text);
        let start = self.add.len();
        let len = bytes.len();
        push_bytes(&mut self.add, &bytes, 0, len);
        let total = self.add.len();
        proof {
            assert(bytes@.subrange(0, len as int) =~= bytes@);
            assert(self.add@.subrange(start as int, start + len) =~= bytes@);
        }
        if len == 0 {
            return Piece { source: BufferSource::Add, start, len, newline_count: 0 };
        }
        self.make_piece(BufferSource::Add, start, len)
    }
}

/// The bytes of `bytes` between `lo` and `hi`, each kept within the text.
#[verifier::opaque]
spec fn clip(bytes: Seq<u8>, lo: int, hi: int) -> Seq<u8> {
    let l = if lo < 0 { 0 } else if lo > bytes.len() { bytes.len() as int } else { lo };
    let h = if hi < 0 { 0 } else if hi > bytes.len() { bytes.len() as int } else { hi };
    bytes.subrange(l, h)
}

/// Clipping a node's text clips its left text, its piece and its right text.
proof fn lemma_clip_three(x: Seq<u8>, y: Seq<u8>, z: Seq<u8>, lo: int, hi: int)
    requires
        lo <= hi,
    ensures
        clip(x + y + z, lo, hi) == clip(x, lo, hi) + clip(y, lo - x.len(), hi - x.len()) + clip(
            z,
            lo - x.len() - y.len(),
            hi - x.len() - y.len(),
        ),
{
    reveal(clip);
    assert(clip(x + y + z, lo, hi) =~= clip(x, lo, hi) + clip(y, lo - x.len(), hi - x.len()) + clip(
        z,
        lo - x.len() - y.len(),
        hi - x.len() - y.len(),
    ));
}

/// A range within a text clips to that part of it.
proof fn lemma_clip_inside(x: Seq<u8>, lo: int, hi: int)
    requires
        0 <= lo <= hi <= x.len(),
    ensures
        clip(x, lo, hi) == x.subrange(lo, hi),
{
    reveal(clip);
}

/// Nothing of a text lies at or past its end, or at or before its start.
proof fn lemma_clip_outside(x: Seq<u8>, lo: int, hi: int)
    requires
        lo <= hi,
        lo >= x.len() || hi <= 0 || x.len() == 0,
    ensures
        clip(x, lo, hi) == Seq::<u8>::empty(),
{
    reveal(clip);
    assert(clip(x, lo, hi) =~= Seq::<u8>::empty());
}

/// The part of a piece within a range, read from the piece's buffer.
proof fn lemma_clip_piece(buffer: Seq<u8>, start: int, len: int, lo: int, hi: int, take_start: int, take_end: int)
    requires
        0 <= start,
        0 < len,
        start + len <= buffer.len(),
        lo <= hi,
        lo < len,
        hi > 0,
        take_start == if lo > 0 { lo } else { 0 },
        take_end == if hi < len { hi } else { len },
    ensures
        clip(buffer.subrange(start, start + len), lo, hi) == buffer.subrange(start + take_start, start + take_end),
{
    reveal(clip);
    let piece = buffer.subrange(start, start + len);
    assert(piece.len() == len);
    assert(clip(piece, lo, hi) == piece.subrange(take_start, take_end));
    assert(piece.subrange(take_start, take_end) =~= buffer.subrange(start + take_start, start + take_end));
}

/// The pieces of a subtree, in order.
spec fn tree_pieces(t: Option<Box<Node>>) -> Seq<Piece>
    decreases t,
{
    match t {
        None => Seq::empty(),
        Some(n) => tree_pieces(n.left) + seq![n.piece] + tree_pieces(n.right),
    }
}

/// The bytes the pieces `ps` read, counted from the front.
spec fn pieces_len(ps: Seq<Piece>) -> int
    decreases ps.len(),
{
    if ps.len() == 0 {
        0
    } else {
        ps[0].len + pieces_len(ps.drop_first())
    }
}

/// The first `w` bytes of piece `p`, with their line feeds counted.
spec fn piece_head(o: Seq<u8>, a: Seq<u8>, p: Piece, w: int) -> Piece {
    Piece {
        source: p.source,
        start: p.start,
        len: w as usize,
        newline_count: newline_count(source_bytes(o, a, p.source).subrange(p.start as int, p.start + w)) as usize,
    }
}

/// Piece `p` without its first `w` bytes, with their line feeds counted.
spec fn piece_tail(o: Seq<u8>, a: Seq<u8>, p: Piece, w: int) -> Piece {
    Piece {
        source: p.source,
        start: (p.start + w) as usize,
        len: (p.len - w) as usize,
        newline_count: newline_count(source_bytes(o, a, p.source).subrange(p.start + w, p.start + p.len)) as usize,
    }
}

/// The pieces `ps` split at byte `k` of what they read: the pieces wholly before
/// `k`, and those after it, a piece that `k` falls strictly inside cut in two.
spec fn split_pieces(o: Seq<u8>, a: Seq<u8>, ps: Seq<Piece>, k: int) -> (Seq<Piece>, Seq<Piece>)
    decreases ps.len(),
{
    if ps.len() == 0 {
        (Seq::empty(), Seq::empty())
    } else if k <= 0 {
        (Seq::empty(), ps)
    } else if k >= ps[0].len {
        let rest = split_pieces(o, a, ps.drop_first(), k - ps[0].len);
        (seq![ps[0]] + rest.0, rest.1)
    } else {
        (seq![piece_head(o, a, ps[0], k)], seq![piece_tail(o, a, ps[0], k)] + ps.drop_first())
    }
}

/// Splitting pieces `x + y` splits `x` when the split falls within it, and `y` otherwise.
proof fn lemma_split_pieces_concat(o: Seq<u8>, a: Seq<u8>, x: Seq<Piece>, y: Seq<Piece>, k: int)
    requires
        forall|i: int| 0 <= i < x.len() ==> #[trigger] x[i].len > 0,
    ensures
        pieces_len(x) >= 0,
        x.len() > 0 ==> pieces_len(x) > 0,
        pieces_len(x + y) == pieces_len(x) + pieces_len(y),
        k >= pieces_len(x) ==> split_pieces(o, a, x + y, k) == (
            x + split_pieces(o, a, y, k - pieces_len(x)).0,
            split_pieces(o, a, y, k - pieces_len(x)).1,
        ),
        k < pieces_len(x) ==> split_pieces(o, a, x + y, k) == (
            split_pieces(o, a, x, k).0,
            split_pieces(o, a, x, k).1 + y,
        ),
    decreases x.len(),
{
    if x.len() == 0 {
        assert(x + y =~= y);
        assert(x + split_pieces(o, a, y, k).0 =~= split_pieces(o, a, y, k).0);
    } else {
        let t = x.drop_first();
        assert((x + y).drop_first() =~= t + y);
        assert((x + y)[0] == x[0]);
        assert forall|i: int| 0 <= i < t.len() implies #[trigger] t[i].len > 0 by {
            assert(t[i] == x[i + 1]);
        }
        assert(x[0].len > 0);
        lemma_split_pieces_concat(o, a, t, y, k - x[0].len);
        if k <= 0 {
            assert(x + y =~= (x + y));
        } else if k >= x[0].len {
            let rest = split_pieces(o, a, t + y, k - x[0].len);
            if k >= pieces_len(x) {
                assert(seq![x[0]] + (t + split_pieces(o, a, y, k - pieces_len(x)).0) =~= x + split_pieces(
                    o,
                    a,
                    y,
                    k - pieces_len(x),
                ).0);
            } else {
                assert(seq![x[0]] + split_pieces(o, a, t, k - x[0].len).0 == split_pieces(o, a, x, k).0);
            }
        } else {
            assert(seq![piece_tail(o, a, x[0], k)] + (t + y) =~= seq![piece_tail(o, a, x[0], k)] + t + y);
        }
    }
}

/// What the pieces of a node's subtree split into, by where the split falls:
/// before, at the start of, inside, at the end of, or after the node's piece.
proof fn lemma_split_node_pieces(o: Seq<u8>, a: Seq<u8>, x: Seq<Piece>, p: Piece, y: Seq<Piece>, k: int)
    requires
        p.len > 0,
        forall|i: int| 0 <= i < x.len() ==> #[trigger] x[i].len > 0,
    ensures
        ({
            let all = x + seq![p] + y;
            let lx = pieces_len(x);
            &&& k < lx ==> split_pieces(o, a, all, k) == (
                split_pieces(o, a, x, k).0,
                split_pieces(o, a, x, k).1 + seq![p] + y,
            )
            &&& k == lx ==> split_pieces(o, a, all, k) == (x, seq![p] + y)
            &&& lx < k < lx + p.len ==> split_pieces(o, a, all, k) == (
                x + seq![piece_head(o, a, p, k - lx)],
                seq![piece_tail(o, a, p, k - lx)] + y,
            )
            &&& k == lx + p.len ==> split_pieces(o, a, all, k) == (x + seq![p], y)
            &&& k > lx + p.len ==> split_pieces(o, a, all, k) == (
                x + seq![p] + split_pieces(o, a, y, k - lx - p.len).0,
                split_pieces(o, a, y, k - lx - p.len).1,
            )
        }),
{
    let py = seq![p] + y;
    let xp = x + seq![p];
    assert(x + seq![p] + y =~= x + py);
    assert forall|i: int| 0 <= i < xp.len() implies #[trigger] xp[i].len > 0 by {
        if i < x.len() {
            assert(xp[i] == x[i]);
        }
    }
    assert(seq![p][0] == p);
    lemma_split_pieces_concat(o, a, x, py, k);
    lemma_split_pieces_concat(o, a, seq![p], y, k - pieces_len(x));
    assert(py[0] == p);
    assert(py.drop_first() =~= y);
    assert(seq![p].drop_first() =~= Seq::<Piece>::empty());
    assert(pieces_len(seq![p]) == p.len);
    assert(x + seq![p] + y =~= (x + seq![p]) + y);
    lemma_split_pieces_concat(o, a, x + seq![p], y, k);
    lemma_split_pieces_concat(o, a, x, seq![p], k);
    let lx = pieces_len(x);
    if k == lx + p.len {
        assert(split_pieces(o, a, y, 0).0 =~= Seq::<Piece>::empty());
        assert(x + seq![p] + split_pieces(o, a, y, 0).0 =~= x + seq![p]);
    }
    if k == lx {
        assert(x + split_pieces(o, a, py, 0).0 =~= x);
    }
    if lx < k < lx + p.len {
        assert(seq![piece_tail(o, a, p, k - lx)] + py.drop_first() =~= seq![piece_tail(o, a, p, k - lx)] + y);
    }
}

/// The pieces of a sound subtree read as many bytes as its text holds.
proof fn lemma_tree_pieces_len(o: Seq<u8>, a: Seq<u8>, t: Option<Box<Node>>)
    requires
        tree_ok(o, a, t),
    ensures
        pieces_len(tree_pieces(t)) == tree_bytes(o, a, t).len(),
        forall|i: int| 0 <= i < tree_pieces(t).len() ==> #[trigger] tree_pieces(t)[i].len > 0,
    decreases t,
{
    lemma_tree_node(o, a, t);
    if let Some(n) = t {
        lemma_tree_pieces_len(o, a, n.left);
        lemma_tree_pieces_len(o, a, n.right);
        let lp = tree_pieces(n.left);
        let rp = tree_pieces(n.right);
        let one = seq![n.piece];
        let xp = lp + one;
        assert(one[0] == n.piece);
        assert(one.len() == 1);
        assert(one.drop_first() =~= Seq::<Piece>::empty());
        assert(pieces_len(Seq::<Piece>::empty()) == 0);
        assert(pieces_len(one) == n.piece.len);
        assert forall|i: int| 0 <= i < xp.len() implies #[trigger] xp[i].len > 0 by {
            if i < lp.len() {
                assert(xp[i] == lp[i]);
            }
        }
        lemma_split_pieces_concat(o, a, lp, one, 0);
        lemma_split_pieces_concat(o, a, xp, rp, 0);
        let all = tree_pieces(t);
        assert(all == xp + rp);
        assert forall|i: int| 0 <= i < all.len() implies #[trigger] all[i].len > 0 by {
            if i < xp.len() {
                assert(all[i] == xp[i]);
            } else {
                assert(all[i] == rp[i - xp.len()]);
            }
        }
    }
}

/// The offset that a refused split reports: the offset within the subtree whose
/// own piece holds it.
spec fn split_error_offset(o: Seq<u8>, a: Seq<u8>, t: Option<Box<Node>>, offset: int) -> int
    decreases t,
{
    match t {
        None => offset,
        Some(n) => {
            let lb = tree_bytes(o, a, n.left).len();
            if offset < lb {
                split_error_offset(o, a, n.left, offset)
            } else if offset > lb + n.piece.len {
                split_error_offset(o, a, n.right, offset - lb - n.piece.len)
            } else {
                offset
            }
        },
    }
}

/// What splitting subtree `node` at byte `offset` answers: the two halves of its
/// text, sound, with the pieces split as `split_pieces` splits them; refused, with
/// the offset within the subtree whose piece holds it, only when `offset` falls
/// inside a character.
spec fn split_answer(
    o: Seq<u8>,
    a: Seq<u8>,
    node: Option<Box<Node>>,
    offset: usize,
    r: Result<(Option<Box<Node>>, Option<Box<Node>>), DocumentError>,
) -> bool {
    let text = tree_bytes(o, a, node);
    let k = split_point(text.len(), offset as int);
    &&& (offset >= text.len() || at_char_boundary(text, offset as int)) ==> r is Ok
    &&& r is Err ==> !at_char_boundary(text, offset as int)
    &&& r matches Err(e) ==> e == DocumentError::InvalidUtf8Boundary {
        offset: TextOffset::spec_new(split_error_offset(o, a, node, offset as int) as usize),
    }
    &&& r matches Ok((left, right)) ==> {
        &&& tree_ok(o, a, left)
        &&& tree_ok(o, a, right)
        &&& tree_bytes(o, a, left) == text.subrange(0, k)
        &&& tree_bytes(o, a, right) == text.subrange(k, text.len() as int)
        &&& (tree_pieces(left), tree_pieces(right)) == split_pieces(o, a, tree_pieces(node), offset as int)
    }
}

/// The height of a subtree.
spec fn depth(t: Option<Box<Node>>) -> nat
    decreases t,
{
    match t {
        None => 0,
        Some(n) => {
            let l = depth(n.left);
            let r = depth(n.right);
            1 + if l > r { l } else { r }
        },
    }
}

/// Boundaries inside a middle part of valid parts are those of the middle part.
proof fn lemma_boundary_middle(before: Seq<u8>, middle: Seq<u8>, after: Seq<u8>, inner: int)
    requires
        valid_utf8(before),
        valid_utf8(middle),
        valid_utf8(after),
        0 <= inner <= middle.len(),
    ensures
        at_char_boundary(before + middle + after, before.len() + inner) == at_char_boundary(middle, inner),
{
    valid_utf8_concat(middle, after);
    lemma_boundary_concat(before, middle + after, before.len() + inner);
    lemma_boundary_concat(middle, after, inner);
    assert(before + middle + after =~= before + (middle + after));
    if inner == middle.len() && after.len() > 0 {
        assert(at_char_boundary(middle, inner));
    }
}

impl PieceTree {
    /// The line feeds the tree holds.
    pub fn subtree_newlines(&self) -> (n: usize)
        requires
            self.well_formed(),
        ensures
            n == newline_count(self.text()),
    {
        proof {
            lemma_tree_node(self.original@, self.add@, self.root);
        }
        subtree_newlines(&self.root)
    }

    /// Splits subtree `node` at byte `offset` of its text (at its end, for an offset
    /// past it); refused when the offset falls inside a character.
    fn split(&mut self, node: Option<Box<Node>>, offset: usize) -> (r: Result<(Option<Box<Node>>, Option<Box<Node>>), DocumentError>)
        requires
            tree_ok(old(self).original@, old(self).add@, node),
        ensures
            final(self).original == old(self).original,
            final(self).add == old(self).add,
            final(self).root == old(self).root,
            split_answer(old(self).original@, old(self).add@, node, offset, r),
        decreases node, 1nat,
    {
        let ghost o = self.original@;
        let ghost a = self.add@;
        proof {
            lemma_tree_node(o, a, node);
            lemma_tree_node(o, a, None);
        }
        let node = match node {
            None => {
                proof {
                    assert(tree_pieces(None) =~= Seq::<Piece>::empty());
                    assert(split_pieces(o, a, Seq::<Piece>::empty(), offset as int) == (
                        Seq::<Piece>::empty(),
                        Seq::<Piece>::empty(),
                    ));
                    assert(tree_bytes(o, a, None).subrange(0, 0) =~= Seq::<u8>::empty());
                }
                return Ok((None, None));
            },
            Some(node) => node,
        };
        proof {
            lemma_tree_node(o, a, node.left);
        }
        let left_bytes = subtree_bytes(&node.left);
        if offset < left_bytes {
            return self.split_left(node, offset);
        }
        if offset > left_bytes + node.piece.len {
            return self.split_right(node, offset);
        }
        self.split_at_piece(node, offset)
    }

    /// `split` of a node whose left subtree holds `offset`.
    fn split_left(&mut self, node: Box<Node>, offset: usize) -> (r: Result<(Option<Box<Node>>, Option<Box<Node>>), DocumentError>)
        requires
            tree_ok(old(self).original@, old(self).add@, Some(node)),
            offset < tree_bytes(old(self).original@, old(self).add@, node.left).len(),
        ensures
            final(self).original == old(self).original,
            final(self).add == old(self).add,
            final(self).root == old(self).root,
            split_answer(old(self).original@, old(self).add@, Some(node), offset, r),
        decreases node, 0nat,
    {
        let ghost o = self.original@;
        let ghost a = self.add@;
        let mut node = node;
        let ghost text = tree_bytes(o, a, Some(node));
        let ghost lt = tree_bytes(o, a, node.left);
        let ghost pt = piece_bytes(o, a, node.piece);
        let ghost rt = tree_bytes(o, a, node.right);
        let ghost lp = tree_pieces(node.left);
        let ghost pp = node.piece;
        let ghost rp = tree_pieces(node.right);
        proof {
            lemma_tree_node(o, a, Some(node));
            lemma_tree_pieces_len(o, a, node.left);
            lemma_tree_valid(o, a, node.left);
            lemma_tree_valid(o, a, node.right);
        }
        let inner = node.left.take();
        let (left, right) = match self.split(inner, offset) {
            Ok(parts) => parts,
            Err(e) => {
                proof {
                    valid_utf8_concat(pt, rt);
                    lemma_boundary_middle(Seq::empty(), lt, pt + rt, offset as int);
                    assert(Seq::<u8>::empty() + lt + (pt + rt) =~= text);
                }
                return Err(e);
            },
        };
        node.left = right;
        proof {
            assert(tree_bytes(o, a, node.left) + pt + rt =~= text.subrange(offset as int, text.len() as int));
            assert(tree_bytes(o, a, node.left).len() + pt.len() + rt.len() <= usize::MAX);
            lemma_tree_node(o, a, Some(node));
        }
        node.recalc(Ghost(o), Ghost(a));
        proof {
            lemma_tree_node(o, a, Some(node));
            assert(text.subrange(0, offset as int) =~= lt.subrange(0, offset as int));
            lemma_split_node_pieces(o, a, lp, pp, rp, offset as int);
            assert(tree_pieces(Some(node)) =~= tree_pieces(node.left) + seq![pp] + rp);
        }
        Ok((left, Some(node)))
    }

    /// `split` of a node whose right subtree holds `offset`, past its piece.
    fn split_right(&mut self, node: Box<Node>, offset: usize) -> (r: Result<(Option<Box<Node>>, Option<Box<Node>>), DocumentError>)
        requires
            tree_ok(old(self).original@, old(self).add@, Some(node)),
            offset > tree_bytes(old(self).original@, old(self).add@, node.left).len() + node.piece.len,
        ensures
            final(self).original == old(self).original,
            final(self).add == old(self).add,
            final(self).root == old(self).root,
            split_answer(old(self).original@, old(self).add@, Some(node), offset, r),
        decreases node, 0nat,
    {
        let ghost o = self.original@;
        let ghost a = self.add@;
        let mut node = node;
        let ghost text = tree_bytes(o, a, Some(node));
        let ghost lt = tree_bytes(o, a, node.left);
        let ghost pt = piece_bytes(o, a, node.piece);
        let ghost rt = tree_bytes(o, a, node.right);
        let ghost lp = tree_pieces(node.left);
        let ghost pp = node.piece;
        let ghost rp = tree_pieces(node.right);
        proof {
            lemma_tree_node(o, a, Some(node));
            lemma_tree_node(o, a, node.left);
            lemma_tree_pieces_len(o, a, node.left);
            lemma_tree_valid(o, a, node.left);
            lemma_tree_valid(o, a, node.right);
        }
        let piece_end = subtree_bytes(&node.left) + node.piece.len;
        let inner = node.right.take();
        let (left, right) = match self.split(inner, offset - piece_end) {
            Ok(parts) => parts,
            Err(e) => {
                proof {
                    valid_utf8_concat(lt, pt);
                    lemma_boundary_concat(lt + pt, rt, offset as int);
                    assert(lt + pt + rt =~= text);
                }
                return Err(e);
            },
        };
        node.right = left;
        proof {
            assert(lt.len() + pt.len() + tree_bytes(o, a, node.right).len() <= text.len());
            valid_utf8_concat(lt, pt);
            assert(lt + pt + tree_bytes(o, a, node.right) =~= text.subrange(0, split_point(text.len(), offset as int)));
            lemma_tree_node(o, a, Some(node));
        }
        node.recalc(Ghost(o), Ghost(a));
        proof {
            lemma_tree_node(o, a, Some(node));
            assert(tree_bytes(o, a, right) =~= text.subrange(split_point(text.len(), offset as int), text.len() as int));
            lemma_split_node_pieces(o, a, lp, pp, rp, offset as int);
            assert(tree_pieces(Some(node)) =~= lp + seq![pp] + tree_pieces(node.right));
        }
        Ok((Some(node), right))
    }

    /// `split` of a node whose own piece holds `offset`, at its start, inside it or at its end.
    #[verifier::rlimit(40)]
    fn split_at_piece(&mut self, node: Box<Node>, offset: usize) -> (r: Result<(Option<Box<Node>>, Option<Box<Node>>), DocumentError>)
        requires
            tree_ok(old(self).original@, old(self).add@, Some(node)),
            tree_bytes(old(self).original@, old(self).add@, node.left).len() <= offset,
            offset <= tree_bytes(old(self).original@, old(self).add@, node.left).len() + node.piece.len,
        ensures
            final(self).original == old(self).original,
            final(self).add == old(self).add,
            final(self).root == old(self).root,
            split_answer(old(self).original@, old(self).add@, Some(node), offset, r),
    {
        let ghost o = self.original@;
        let ghost a = self.add@;
        let mut node = node;
        let ghost text = tree_bytes(o, a, Some(node));
        let ghost lt = tree_bytes(o, a, node.left);
        let ghost pt = piece_bytes(o, a, node.piece);
        let ghost rt = tree_bytes(o, a, node.right);
        let ghost lp = tree_pieces(node.left);
        let ghost pp = node.piece;
        let ghost rp = tree_pieces(node.right);
        proof {
            lemma_tree_node(o, a, None);
            lemma_tree_node(o, a, Some(node));
            lemma_tree_node(o, a, node.left);
            lemma_tree_node(o, a, node.right);
            lemma_tree_pieces_len(o, a, node.left);
            lemma_split_node_pieces(o, a, lp, pp, rp, offset as int);
            assert(tree_pieces(None) =~= Seq::<Piece>::empty());
        }
        let within_piece = offset - subtree_bytes(&node.left);
        if within_piece == 0 {
            let left = node.left.take();
            proof {
                assert(Seq::<u8>::empty() + pt + rt =~= text.subrange(offset as int, text.len() as int));
                lemma_tree_node(o, a, Some(node));
            }
            node.recalc(Ghost(o), Ghost(a));
            proof {
                lemma_tree_node(o, a, Some(node));
                assert(lt =~= text.subrange(0, offset as int));
                assert(tree_pieces(Some(node)) =~= seq![pp] + rp);
            }
            return Ok((left, Some(node)));
        }
        if within_piece == node.piece.len {
            let right = node.right.take();
            proof {
                assert(lt + pt + Seq::<u8>::empty() =~= text.subrange(0, offset as int));
                lemma_tree_node(o, a, Some(node));
            }
            node.recalc(Ghost(o), Ghost(a));
            proof {
                lemma_tree_node(o, a, Some(node));
                assert(rt =~= text.subrange(offset as int, text.len() as int));
                assert(tree_pieces(Some(node)) =~= lp + seq![pp]);
            }
            return Ok((Some(node), right));
        }
        self.split_piece(node, within_piece, offset)
    }

    /// Splits subtree `node` inside its own piece, `within_piece` bytes into it,
    /// which is byte `offset` of the subtree's text.
    fn split_piece(&mut self, node: Box<Node>, within_piece: usize, offset: usize) -> (r: Result<
        (Option<Box<Node>>, Option<Box<Node>>),
        DocumentError,
    >)
        requires
            tree_ok(old(self).original@, old(self).add@, Some(node)),
            0 < within_piece < node.piece.len,
            offset == tree_bytes(old(self).original@, old(self).add@, node.left).len() + within_piece,
        ensures
            final(self).original == old(self).original,
            final(self).add == old(self).add,
            final(self).root == old(self).root,
            ({
                let o = old(self).original@;
                let a = old(self).add@;
                let text = tree_bytes(o, a, Some(node));
                &&& at_char_boundary(text, offset as int) ==> r is Ok
                &&& r is Err ==> !at_char_boundary(text, offset as int)
                &&& r matches Err(e) ==> e == DocumentError::InvalidUtf8Boundary { offset: TextOffset::spec_new(offset) }
                &&& r matches Ok((left, right)) ==> {
                    &&& tree_ok(o, a, left)
                    &&& tree_ok(o, a, right)
                    &&& tree_bytes(o, a, left) == text.subrange(0, offset as int)
                    &&& tree_bytes(o, a, right) == text.subrange(offset as int, text.len() as int)
                    &&& tree_pieces(left) == tree_pieces(node.left) + seq![
                        piece_head(o, a, node.piece, within_piece as int),
                    ]
                    &&& tree_pieces(right) == seq![piece_tail(o, a, node.piece, within_piece as int)]
                        + tree_pieces(node.right)
                }
            }),
    {
        let ghost o = self.original@;
        let ghost a = self.add@;
        let mut node = node;
        let ghost text = tree_bytes(o, a, Some(node));
        let ghost lt = tree_bytes(o, a, node.left);
        let ghost pt = piece_bytes(o, a, node.piece);
        let ghost rt = tree_bytes(o, a, node.right);
        let ghost lp0 = tree_pieces(node.left);
        let ghost rp0 = tree_pieces(node.right);
        let ghost p0 = node.piece;
        proof {
            lemma_tree_node(o, a, None);
            lemma_tree_node(o, a, Some(node));
            lemma_tree_valid(o, a, node.left);
            lemma_tree_valid(o, a, node.right);
            self.lemma_buffers_bounded();
        }
        let split_at = node.piece.start + within_piece;
        let buffer = self.buffer_for(node.piece.source);
        proof {
            assert(piece_ok(o, a, node.piece));
            assert(pt[within_piece as int] == buffer@[split_at as int]);
            lemma_boundary_middle(lt, pt, rt, within_piece as int);
            assert(lt + pt + rt =~= text);
        }
        if !bytes_at_char_boundary(buffer, split_at) {
            return Err(DocumentError::InvalidUtf8Boundary { offset: TextOffset::new(offset) });
        }
        proof {
            lemma_valid_subrange(pt, 0, within_piece as int);
            lemma_valid_subrange(pt, within_piece as int, pt.len() as int);
            assert(pt.subrange(0, within_piece as int) =~= buffer@.subrange(
                node.piece.start as int,
                split_at as int,
            ));
            assert(pt.subrange(within_piece as int, pt.len() as int) =~= buffer@.subrange(
                split_at as int,
                node.piece.start + node.piece.len,
            ));
        }
        let left_piece = self.make_piece(node.piece.source, node.piece.start, within_piece);
        let right_piece = self.make_piece(node.piece.source, split_at, node.piece.len - within_piece);
        let mut left_node = self.new_node(left_piece);
        left_node.left = node.left.take();
        proof {
            lemma_tree_node(o, a, Some(left_node));
        }
        left_node.recalc(Ghost(o), Ghost(a));
        let mut right_node = self.new_node(right_piece);
        right_node.right = node.right.take();
        proof {
            lemma_tree_node(o, a, Some(right_node));
        }
        right_node.recalc(Ghost(o), Ghost(a));
        proof {
            lemma_tree_node(o, a, Some(left_node));
            lemma_tree_node(o, a, Some(right_node));
            assert(tree_bytes(o, a, Some(left_node)) =~= text.subrange(0, offset as int));
            assert(tree_bytes(o, a, Some(right_node)) =~= text.subrange(offset as int, text.len() as int));
            assert(left_piece == piece_head(o, a, p0, within_piece as int));
            assert(right_piece == piece_tail(o, a, p0, within_piece as int));
            assert(tree_pieces(None) =~= Seq::<Piece>::empty());
            assert(tree_pieces(Some(left_node)) =~= lp0 + seq![piece_head(o, a, p0, within_piece as int)]);
            assert(tree_pieces(Some(right_node)) =~= seq![piece_tail(o, a, p0, within_piece as int)] + rp0);
        }
        Ok((Some(left_node), Some(right_node)))
    }

    /// The piece holding byte `offset` of the text and the offset within it.
    fn locate_piece(&self, offset: usize) -> (r: Option<(Piece, usize)>)
        requires
            self.wf(),
            offset < self.text_spec().len(),
        ensures
            r matches Some((p, inner)) && piece_ok(self.original@, self.add@, p) && inner <= p.len && (at_char_boundary(
                self.text_spec(),
                offset as int,
            ) <==> (inner == 0 || inner == p.len || at_char_boundary(
                piece_bytes(self.original@, self.add@, p),
                inner as int,
            ))),
    {
        let ghost o = self.original@;
        let ghost a = self.add@;
        let ghost text = self.text_spec();
        let mut current = &self.root;
        let mut remaining = offset;
        let ghost mut before = Seq::<u8>::empty();
        let ghost mut after = Seq::<u8>::empty();
        proof {
            lemma_tree_valid(o, a, self.root);
            assert(text =~= before + tree_bytes(o, a, *current) + after);
        }
        loop
            invariant
                o == self.original@,
                a == self.add@,
                text == self.text_spec(),
                tree_ok(o, a, *current),
                text == before + tree_bytes(o, a, *current) + after,
                valid_utf8(before),
                valid_utf8(after),
                before.len() + remaining == offset,
                remaining < tree_bytes(o, a, *current).len(),
            decreases depth(*current),
        {
            proof {
                lemma_tree_node(o, a, *current);
            }
            match current {
                None => {
                    return None;
                },
                Some(node) => {
                    let ghost lt = tree_bytes(o, a, node.left);
                    let ghost pt = piece_bytes(o, a, node.piece);
                    let ghost rt = tree_bytes(o, a, node.right);
                    proof {
                        lemma_tree_valid(o, a, node.left);
                        lemma_tree_valid(o, a, node.right);
                        lemma_tree_node(o, a, node.left);
                    }
                    let left_bytes = subtree_bytes(&node.left);
                    if remaining < left_bytes {
                        proof {
                            valid_utf8_concat(pt, rt);
                            valid_utf8_concat(pt + rt, after);
                            after = pt + rt + after;
                            assert(text =~= before + lt + after);
                        }
                        current = &node.left;
                        continue;
                    }
                    if remaining > left_bytes + node.piece.len {
                        proof {
                            valid_utf8_concat(before, lt);
                            valid_utf8_concat(before + lt, pt);
                            before = before + lt + pt;
                            assert(text =~= before + rt + after);
                        }
                        remaining = remaining - (left_bytes + node.piece.len);
                        current = &node.right;
                        continue;
                    }
                    proof {
                        let inner = remaining - left_bytes;
                        valid_utf8_concat(before, lt);
                        valid_utf8_concat(rt, after);
                        lemma_boundary_middle(before + lt, pt, rt + after, inner);
                        assert(text =~= before + lt + pt + (rt + after));
                        if inner == 0 {
                            assert(at_char_boundary(pt, 0));
                        }
                        if inner == pt.len() {
                            assert(at_char_boundary(pt, inner));
                        }
                    }
                    return Some((node.piece, remaining - left_bytes));
                },
            }
        }
    }

    /// Appends the text of subtree `node` to `target`.
    fn push_snapshot_text(&self, node: &Option<Box<Node>>, target: &mut Vec<u8>)
        requires
            tree_ok(self.original@, self.add@, *node),
        ensures
            final(target)@ == old(target)@ + tree_bytes(self.original@, self.add@, *node),
        decreases *node,
    {
        proof {
            lemma_tree_node(self.original@, self.add@, *node);
        }
        match node {
            None => {
                assert(old(target)@ + Seq::<u8>::empty() =~= old(target)@);
            },
            Some(n) => {
                proof {
                    self.lemma_buffers_bounded();
                }
                self.push_snapshot_text(&n.left, target);
                let buffer = self.buffer_for(n.piece.source);
                push_bytes(target, buffer, n.piece.start, n.piece.start + n.piece.len);
                self.push_snapshot_text(&n.right, target);
                proof {
                    assert(final(target)@ =~= old(target)@ + tree_bytes(self.original@, self.add@, *node));
                }
            },
        }
    }

    /// Appends to `target` the bytes of `piece`, whose text starts at `piece_offset`,
    /// that lie within `range`.
    fn push_piece_range(&self, piece: Piece, piece_offset: usize, range: TextRange, target: &mut Vec<u8>)
        requires
            piece_ok(self.original@, self.add@, piece),
            piece_offset + piece.len <= usize::MAX,
            range.start()@ <= range.end()@,
        ensures
            final(target)@ == old(target)@ + clip(
                piece_bytes(self.original@, self.add@, piece),
                range.start()@ - piece_offset,
                range.end()@ - piece_offset,
            ),
    {
        let ghost pt = piece_bytes(self.original@, self.add@, piece);
        let ghost lo = range.start()@ - piece_offset;
        let ghost hi = range.end()@ - piece_offset;
        let piece_end = piece_offset + piece.len;
        let start = range.start().value();
        let end = range.end().value();
        proof {
            self.lemma_buffers_bounded();
        }
        if start < piece_end && end > piece_offset {
            let take_start = if start > piece_offset {
                start - piece_offset
            } else {
                0
            };
            let take_end = (if end < piece_end {
                end
            } else {
                piece_end
            }) - piece_offset;
            let buffer = self.buffer_for(piece.source);
            proof {
                lemma_clip_piece(
                    buffer@,
                    piece.start as int,
                    piece.len as int,
                    lo,
                    hi,
                    take_start as int,
                    take_end as int,
                );
            }
            push_bytes(target, buffer, piece.start + take_start, piece.start + take_end);
        } else {
            proof {
                lemma_clip_outside(pt, lo, hi);
            }
            assert(old(target)@ + Seq::<u8>::empty() =~= old(target)@);
        }
    }

    /// Appends to `target` the bytes of subtree `node`, whose text starts at
    /// `base_offset`, that lie within `range`.
    fn push_range_text(&self, node: &Option<Box<Node>>, base_offset: usize, range: TextRange, target: &mut Vec<u8>)
        requires
            tree_ok(self.original@, self.add@, *node),
            base_offset + tree_bytes(self.original@, self.add@, *node).len() <= usize::MAX,
            range.start()@ <= range.end()@,
        ensures
            final(target)@ == old(target)@ + clip(
                tree_bytes(self.original@, self.add@, *node),
                range.start()@ - base_offset,
                range.end()@ - base_offset,
            ),
        decreases *node,
    {
        let ghost o = self.original@;
        let ghost a = self.add@;
        let ghost lo = range.start()@ - base_offset;
        let ghost hi = range.end()@ - base_offset;
        proof {
            lemma_tree_node(o, a, *node);
        }
        let n = match node {
            None => {
                proof {
                    lemma_clip_outside(Seq::<u8>::empty(), lo, hi);
                }
                assert(old(target)@ + Seq::<u8>::empty() =~= old(target)@);
                return;
            },
            Some(n) => n,
        };
        let ghost lt = tree_bytes(o, a, n.left);
        let ghost pt = piece_bytes(o, a, n.piece);
        let ghost rt = tree_bytes(o, a, n.right);
        proof {
            lemma_tree_node(o, a, n.left);
            lemma_clip_three(lt, pt, rt, lo, hi);
        }
        let left_bytes = subtree_bytes(&n.left);
        let piece_offset = base_offset + left_bytes;
        let piece_end = piece_offset + n.piece.len;
        let start = range.start().value();
        let end = range.end().value();
        let ghost t0 = target@;
        if start < piece_offset {
            self.push_range_text(&n.left, base_offset, range, target);
        } else {
            proof {
                lemma_clip_outside(lt, lo, hi);
            }
            assert(t0 + Seq::<u8>::empty() =~= t0);
        }
        let ghost t1 = target@;
        self.push_piece_range(n.piece, piece_offset, range, target);
        let ghost t2 = target@;
        if end > piece_end {
            self.push_range_text(&n.right, piece_end, range, target);
        } else {
            proof {
                lemma_clip_outside(rt, lo - lt.len() - pt.len(), hi - lt.len() - pt.len());
            }
            assert(t2 + Seq::<u8>::empty() =~= t2);
        }
        proof {
            assert(target@ =~= old(target)@ + clip(tree_bytes(o, a, *node), lo, hi));
        }
    }
}

} // verus!
