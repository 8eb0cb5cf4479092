use vstd::prelude::*;
use vstd::utf8::*;

use super::{
    at_char_boundary, splice, bytes_of, lemma_boundary_after_newline, lemma_boundary_iff,
    lemma_encode_concat, lemma_line_of_offset, lemma_line_unique, next_line_start, position_offset,
    position_result, DocumentError, Position, TextOffset, TextRange, TextSnapshot,
};

verus! {

/// The offsets just past each line feed of `text`, counted from `base`.
pub open spec fn newline_starts(text: Seq<u8>, base: int) -> Seq<int>
    decreases text.len(),
{
    if text.len() == 0 {
        Seq::empty()
    } else {
        let rest = newline_starts(text.drop_last(), base);
        if text.last() == 0x0a {
            rest.push(base + text.len())
        } else {
            rest
        }
    }
}

/// The offsets at which the lines of `text` start: 0, then one past every line feed.
pub open spec fn line_starts_of(text: Seq<u8>) -> Seq<int> {
    seq![0int] + newline_starts(text, 0)
}

/// `starts` is strictly increasing.
pub open spec fn strictly_increasing(starts: Seq<int>) -> bool {
    forall|i: int, j: int| 0 <= i < j < starts.len() ==> starts[i] < starts[j]
}

/// Line feeds of a concatenation are those of each part.
pub proof fn lemma_newline_starts_concat(a: Seq<u8>, b: Seq<u8>, base: int)
    ensures
        newline_starts(a + b, base) == newline_starts(a, base) + newline_starts(b, base + a.len()),
    decreases b.len(),
{
    if b.len() == 0 {
        assert(a + b =~= a);
        assert(newline_starts(a, base) + newline_starts(b, base + a.len()) =~= newline_starts(a, base));
    } else {
        lemma_newline_starts_concat(a, b.drop_last(), base);
        assert((a + b).drop_last() =~= a + b.drop_last());
        assert((a + b).last() == b.last());
        if b.last() == 0x0a {
            assert(newline_starts(a + b, base) =~= newline_starts(a, base) + newline_starts(b, base + a.len()));
        } else {
            assert(newline_starts(a + b, base) =~= newline_starts(a, base) + newline_starts(b, base + a.len()));
        }
    }
}

/// Moving the base moves every start by the same amount.
pub proof fn lemma_newline_starts_shift(text: Seq<u8>, b1: int, b2: int)
    ensures
        newline_starts(text, b2).len() == newline_starts(text, b1).len(),
        forall|i: int| 0 <= i < newline_starts(text, b1).len() ==>
            #[trigger] newline_starts(text, b2)[i] == newline_starts(text, b1)[i] + (b2 - b1),
    decreases text.len(),
{
    if text.len() > 0 {
        lemma_newline_starts_shift(text.drop_last(), b1, b2);
    }
}

/// Starts are strictly increasing and lie in `(base, base + text.len()]`.
pub proof fn lemma_newline_starts_bounds(text: Seq<u8>, base: int)
    ensures
        strictly_increasing(newline_starts(text, base)),
        forall|i: int| 0 <= i < newline_starts(text, base).len() ==>
            base < #[trigger] newline_starts(text, base)[i] <= base + text.len(),
        newline_starts(text, base).len() <= text.len(),
    decreases text.len(),
{
    if text.len() > 0 {
        lemma_newline_starts_bounds(text.drop_last(), base);
    }
}

/// Line starts are strictly increasing, begin with 0 and end no later than the text.
pub proof fn lemma_line_starts_shape(text: Seq<u8>)
    ensures
        line_starts_of(text).len() >= 1,
        line_starts_of(text)[0] == 0,
        strictly_increasing(line_starts_of(text)),
        forall|i: int| 0 <= i < line_starts_of(text).len() ==> 0 <= #[trigger] line_starts_of(text)[i] <= text.len(),
        line_starts_of(text).len() <= text.len() + 1,
{
    lemma_newline_starts_bounds(text, 0);
    let s = line_starts_of(text);
    let n = newline_starts(text, 0);
    assert forall|i: int| 0 <= i < s.len() implies 0 <= #[trigger] s[i] <= text.len() by {
        if i > 0 {
            assert(s[i] == n[i - 1]);
        }
    }
    assert forall|i: int, j: int| 0 <= i < j < s.len() implies s[i] < s[j] by {
        assert(s[j] == n[j - 1]);
        if i > 0 {
            assert(s[i] == n[i - 1]);
        }
    }
}

/// Every line start after the first follows a line feed, and so is a character boundary.
pub proof fn lemma_line_starts_boundaries(text: Seq<u8>)
    requires
        valid_utf8(text),
    ensures
        forall|i: int| 0 <= i < line_starts_of(text).len() ==> at_char_boundary(text, #[trigger] line_starts_of(text)[i]),
{
    lemma_newline_starts_after_feed(text, 0);
    let s = line_starts_of(text);
    assert forall|i: int| 0 <= i < s.len() implies at_char_boundary(text, #[trigger] s[i]) by {
        if i > 0 {
            let k = s[i];
            assert(k == newline_starts(text, 0)[i - 1]);
            lemma_boundary_after_newline(text, k - 1);
        }
    }
}

/// Each start counted from 0 follows a line feed.
pub proof fn lemma_newline_starts_after_feed(text: Seq<u8>, base: int)
    requires
        base == 0,
    ensures
        forall|i: int| 0 <= i < newline_starts(text, base).len() ==> {
            let k = #[trigger] newline_starts(text, base)[i];
            1 <= k <= text.len() && text[k - 1] == 0x0a
        },
    decreases text.len(),
{
    if text.len() > 0 {
        lemma_newline_starts_after_feed(text.drop_last(), base);
        lemma_newline_starts_bounds(text.drop_last(), base);
    }
}


/// Line `line` of the index `starts` holds `offset`.
pub open spec fn line_holds(starts: Seq<int>, offset: int, line: int) -> bool {
    &&& 0 <= line < starts.len()
    &&& starts[line] <= offset
    &&& line + 1 < starts.len() ==> offset < starts[line + 1]
}

/// The byte offset of character `column` of a line whose characters are `chars`:
/// none when the line has fewer characters before its line feed.
pub open spec fn column_byte_offset(chars: Seq<char>, column: int) -> Option<int> {
    if column <= chars.len() && forall|j: int| 0 <= j < column ==> #[trigger] chars[j] != '\n' {
        Some(encode_utf8(chars.take(column)).len() as int)
    } else {
        None
    }
}

/// The first character of valid UTF-8 is a line feed exactly when its first byte is.
proof fn lemma_first_scalar_newline(bytes: Seq<u8>)
    requires
        valid_first_scalar(bytes),
    ensures
        (bytes[0] == 0x0a) == (decode_first_scalar(bytes) == 10),
{
    let b = bytes[0];
    if is_leading_byte_width_1(b) {
        assert(b <= 0x7f ==> (b & 0x7f) == b) by (bit_vector);
    }
}

/// A line feed among the characters shows as a line feed byte where its encoding starts.
proof fn lemma_encoded_newline(chars: Seq<char>, j: int)
    requires
        0 <= j < chars.len(),
        chars[j] == '\n',
    ensures
        encode_utf8(chars.take(j)).len() < encode_utf8(chars).len(),
        encode_utf8(chars)[encode_utf8(chars.take(j)).len() as int] == 0x0a,
{
    let t = chars.take(j);
    let u = chars.skip(j);
    assert(chars =~= t + u);
    lemma_encode_concat(t, u);
    assert(u[0] == '\n');
    encode_utf8_first_scalar(u);
    assert('\n' as u32 == 10);
    lemma_first_scalar_newline(encode_utf8(u));
    assert(encode_utf8(chars)[encode_utf8(t).len() as int] == encode_utf8(u)[0]);
}

/// Valid UTF-8 without a line feed byte decodes to characters without a line feed.
pub proof fn lemma_decode_no_newline(bytes: Seq<u8>)
    requires
        valid_utf8(bytes),
        forall|i: int| 0 <= i < bytes.len() ==> #[trigger] bytes[i] != 0x0a,
    ensures
        forall|j: int| 0 <= j < decode_utf8(bytes).len() ==> #[trigger] decode_utf8(bytes)[j] != '\n',
{
    let chars = decode_utf8(bytes);
    decode_utf8_encode_utf8(bytes);
    assert forall|j: int| 0 <= j < chars.len() implies #[trigger] chars[j] != '\n' by {
        if chars[j] == '\n' {
            lemma_encoded_newline(chars, j);
            let k = encode_utf8(chars.take(j)).len() as int;
            assert(bytes[k] == 0x0a);
        }
    }
}

/// Valid UTF-8 whose last byte is a line feed decodes to characters ending in one.
pub proof fn lemma_decode_last_newline(bytes: Seq<u8>)
    requires
        valid_utf8(bytes),
        bytes.len() > 0,
        bytes.last() == 0x0a,
    ensures
        decode_utf8(bytes).len() > 0,
        decode_utf8(bytes).last() == '\n',
{
    let i = bytes.len() - 1;
    assert(at_char_boundary(bytes, i));
    lemma_boundary_iff(bytes, i);
    decode_utf8_split(bytes, i);
    let tail = bytes.subrange(i, bytes.len() as int);
    valid_utf8_split(bytes, i);
    assert(tail[0] == 0x0a);
    assert(valid_first_scalar(tail));
    lemma_first_scalar_newline(tail);
    assert(length_of_first_scalar(tail) == 1);
    assert(pop_first_scalar(tail) =~= Seq::<u8>::empty());
    assert(decode_utf8(pop_first_scalar(tail)) =~= Seq::<char>::empty());
    assert('\n' as u32 == 10);
    char_u32_cast('\n', 10);
    assert(decode_utf8(tail) =~= seq!['\n']);
}

/// Every character takes at least one byte.
pub proof fn lemma_encode_len(chars: Seq<char>)
    ensures
        chars.len() <= encode_utf8(chars).len(),
    decreases chars.len(),
{
    if chars.len() > 0 {
        lemma_encode_len(chars.drop_first());
    }
}

/// Every line feed of `text` is followed by a line start.
proof fn lemma_newline_is_start(text: Seq<u8>, i: int)
    requires
        0 <= i < text.len(),
        text[i] == 0x0a,
    ensures
        newline_starts(text, 0).contains(i + 1),
    decreases text.len(),
{
    let rest = newline_starts(text.drop_last(), 0);
    if i == text.len() - 1 {
        assert(newline_starts(text, 0) == rest.push(text.len() as int));
        assert(newline_starts(text, 0)[rest.len() as int] == i + 1);
    } else {
        lemma_newline_is_start(text.drop_last(), i);
        let k = choose|k: int| 0 <= k < rest.len() && rest[k] == i + 1;
        if text.last() == 0x0a {
            assert(newline_starts(text, 0)[k] == i + 1);
        } else {
            assert(newline_starts(text, 0)[k] == i + 1);
        }
    }
}

/// No byte of a line before its last is a line feed: only a line's last byte can be.
pub proof fn lemma_no_feed_in_line(text: Seq<u8>, line: int, i: int)
    requires
        0 <= line < line_starts_of(text).len(),
        line_starts_of(text)[line] <= i < text.len(),
        line + 1 < line_starts_of(text).len() ==> i + 1 < line_starts_of(text)[line + 1],
    ensures
        text[i] != 0x0a,
{
    let starts = line_starts_of(text);
    lemma_line_starts_shape(text);
    if text[i] == 0x0a {
        lemma_newline_is_start(text, i);
        let n = newline_starts(text, 0);
        let k = choose|k: int| 0 <= k < n.len() && n[k] == i + 1;
        let m = k + 1;
        assert(starts[m] == i + 1);
        if m <= line {
            if m < line {
                assert(starts[m] < starts[line]);
            }
        } else {
            if line + 1 < m {
                assert(starts[line + 1] < starts[m]);
            }
        }
    }
}

/// A single character encodes to its scalar's bytes.
pub proof fn lemma_encode_single(c: char)
    ensures
        encode_utf8(seq![c]) == encode_scalar(c as u32),
        encode_utf8(seq![c]).len() >= 1,
{
    let s = seq![c];
    assert(s[0] == c);
    assert(s.drop_first() =~= Seq::<char>::empty());
    assert(encode_utf8(Seq::<char>::empty()) =~= Seq::<u8>::empty());
    assert(encode_utf8(s) == encode_scalar(c as u32) + encode_utf8(s.drop_first()));
    assert(encode_utf8(s) =~= encode_scalar(c as u32));
}

/// Every character takes at least one byte.
proof fn lemma_encode_empty(chars: Seq<char>)
    ensures
        encode_utf8(chars).len() == 0 ==> chars.len() == 0,
{
    if chars.len() > 0 {
        assert(chars =~= seq![chars[0]] + chars.drop_first());
        lemma_encode_concat(seq![chars[0]], chars.drop_first());
        lemma_encode_single(chars[0]);
    }
}

/// The byte offset of character `column` of `line`, walking its characters.
fn column_to_byte_offset(line: &str, column: usize) -> (r: Option<usize>)
    ensures
        column_byte_offset(line@, column as int) is None ==> r is None,
        column_byte_offset(line@, column as int) matches Some(k) ==> r == Some(k as usize),
{
    let bytes = line.as_bytes();
    let ghost chars = line@;
    let mut byte_offset: usize = 0;
    let mut columns: usize = 0;
    proof {
        assert(chars.take(0) =~= Seq::<char>::empty());
        assert(encode_utf8(Seq::<char>::empty()) =~= Seq::<u8>::empty());
    }
    while columns < column
        invariant
            chars == line@,
            bytes@ == encode_utf8(chars),
            columns <= column,
            columns <= chars.len(),
            byte_offset == encode_utf8(chars.take(columns as int)).len(),
            forall|j: int| 0 <= j < columns ==> #[trigger] chars[j] != '\n',
        decreases column - columns,
    {
        let ghost head = chars.take(columns as int);
        let ghost tail = chars.skip(columns as int);
        proof {
            assert(chars =~= head + tail);
            lemma_encode_concat(head, tail);
            lemma_encode_empty(tail);
        }
        if byte_offset == bytes.len() {
            proof {
                assert(tail.len() == 0);
                assert(chars.len() == columns);
                assert(column_byte_offset(chars, column as int) is None);
            }
            return None;
        }
        let lead = bytes[byte_offset];
        let ghost rest = encode_utf8(tail);
        proof {
            encode_utf8_first_scalar(tail);
            assert(rest[0] == lead);
            lemma_first_scalar_newline(rest);
            char_u32_cast(tail[0], tail[0] as u32);
            assert('\n' as u32 == 10);
            char_u32_cast('\n', 10);
            assert(tail[0] == chars[columns as int]);
        }
        if lead == 0x0a {
            proof {
                assert(decode_first_scalar(rest) == 10);
                assert(tail[0] as u32 == 10);
                assert(chars[columns as int] == '\n');
                assert(column_byte_offset(chars, column as int) is None);
            }
            return None;
        }
        let width: usize = if lead <= 0x7f {
            1
        } else if lead <= 0xdf {
            2
        } else if lead <= 0xef {
            3
        } else {
            4
        };
        proof {
            assert(width == length_of_first_scalar(rest));
            let c = tail[0];
            assert(chars.take(columns + 1) =~= head + seq![c]);
            lemma_encode_concat(head, seq![c]);
            lemma_encode_single(c);
        }
        byte_offset = byte_offset + width;
        columns = columns + 1;
    }
    Some(byte_offset)
}

/// The offsets of `v` as integers.
pub open spec fn offsets_view(v: Seq<TextOffset>) -> Seq<int> {
    Seq::new(v.len(), |i: int| v[i]@ as int)
}

proof fn lemma_offsets_view_push(v: Seq<TextOffset>, o: TextOffset)
    ensures
        offsets_view(v.push(o)) == offsets_view(v).push(o@ as int),
{
    assert(offsets_view(v.push(o)) =~= offsets_view(v).push(o@ as int));
}

/// An index that maps the start of every line to its byte offset.
#[derive(Debug, PartialEq, Eq)]
pub struct LineIndex {
    line_starts: Vec<TextOffset>,
}

impl LineIndex {
    /// The line starts, as integers.
    pub closed spec fn starts(self) -> Seq<int> {
        offsets_view(self.line_starts@)
    }

    /// The first line starts at 0 and line starts strictly increase.
    #[verifier::type_invariant]
    pub open spec fn sorted_from_zero(self) -> bool {
        &&& self.starts().len() >= 1
        &&& self.starts()[0] == 0
        &&& strictly_increasing(self.starts())
        &&& self.starts().len() <= usize::MAX
    }

    /// The index holds the line starts of `text`.
    pub open spec fn describes(self, text: Seq<u8>) -> bool {
        self.starts() == line_starts_of(text)
    }

    /// The index of the lines of `snapshot`.
    pub fn from_snapshot(snapshot: &TextSnapshot) -> (index: Self)
        ensures
            index.describes(snapshot.bytes()),
    {
        let bytes = snapshot.as_str().as_bytes();
        let ghost text = bytes@;
        let mut line_starts: Vec<TextOffset> = Vec::new();
        line_starts.push(TextOffset::new(0));
        let mut i: usize = 0;
        proof {
            assert(text.take(0) =~= Seq::<u8>::empty());
        }
        while i < bytes.len()
            invariant
                bytes@ == text,
                i <= text.len(),
                offsets_view(line_starts@) == line_starts_of(text.take(i as int)),
            decreases text.len() - i,
        {
            let ghost before = line_starts@;
            if bytes[i] == 0x0a {
                line_starts.push(TextOffset::new(i + 1));
            }
            proof {
                let t = text.take(i + 1);
                assert(t.drop_last() =~= text.take(i as int));
                assert(t.last() == text[i as int]);
                assert(t.len() == i + 1);
                let prev = newline_starts(text.take(i as int), 0);
                if text[i as int] == 0x0a {
                    assert(newline_starts(t, 0) == prev.push(i + 1));
                    assert(line_starts_of(t) =~= line_starts_of(text.take(i as int)).push(i + 1));
                } else {
                    assert(newline_starts(t, 0) == prev);
                }
                assert(offsets_view(line_starts@) =~= line_starts_of(t));
            }
            i = i + 1;
        }
        proof {
            assert(text.take(text.len() as int) =~= text);
            lemma_line_starts_shape(text);
            assert(line_starts.len() == line_starts@.len());
        }
        let index = Self { line_starts };
        proof {
            assert(index.starts() == line_starts_of(text));
        }
        index
    }

    /// A copy of `starts` as a vector.
    fn copy_starts(&self) -> (v: Vec<TextOffset>)
        ensures
            v@ == self.line_starts@,
    {
        let mut v: Vec<TextOffset> = Vec::new();
        let mut i: usize = 0;
        while i < self.line_starts.len()
            invariant
                i <= self.line_starts@.len(),
                v@ == self.line_starts@.take(i as int),
            decreases self.line_starts@.len() - i,
        {
            v.push(self.line_starts[i]);
            i = i + 1;
            assert(v@ =~= self.line_starts@.take(i as int));
        }
        assert(self.line_starts@.take(i as int) =~= self.line_starts@);
        v
    }

    pub fn line_count(&self) -> (n: usize)
        ensures
            n == self.starts().len(),
    {
        self.line_starts.len()
    }

    /// The start of line `line`, if there is such a line.
    pub fn line_start(&self, line: usize) -> (r: Option<TextOffset>)
        ensures
            line < self.starts().len() ==> (r matches Some(o) && o@ == self.starts()[line as int]),
            line >= self.starts().len() ==> r is None,
    {
        if line < self.line_starts.len() {
            Some(self.line_starts[line])
        } else {
            None
        }
    }

    /// The line and character column of `offset` in `snapshot`: refused when the
    /// offset is past the end or inside a character. For an index of the snapshot's
    /// own text, that is `position_result`.
    pub fn offset_to_position(&self, snapshot: &TextSnapshot, offset: TextOffset) -> (r: Result<Position, DocumentError>)
        ensures
            ({
                let bytes = snapshot.bytes();
                let starts = self.starts();
                if offset@ > bytes.len() {
                    r == Err::<Position, DocumentError>(DocumentError::RangeOutOfBounds { len: bytes.len() as usize, start: offset, end: offset })
                } else if !at_char_boundary(bytes, offset@ as int) {
                    r == Err::<Position, DocumentError>(DocumentError::InvalidUtf8Boundary { offset })
                } else {
                    exists|line: int| {
                        &&& #[trigger] line_holds(starts, offset@ as int, line)
                        &&& if at_char_boundary(bytes, starts[line]) {
                            r matches Ok(p) && p.line() == line && p.column() == decode_utf8(
                                bytes.subrange(starts[line], offset@ as int),
                            ).len()
                        } else {
                            r == Err::<Position, DocumentError>(DocumentError::InvalidUtf8Boundary {
                                offset: TextOffset::spec_new(starts[line] as usize),
                            })
                        }
                    }
                }
            }),
            self.describes(snapshot.bytes()) && offset@ <= snapshot.bytes().len() && at_char_boundary(
                snapshot.bytes(),
                offset@ as int,
            ) ==> r is Ok,
            self.describes(snapshot.bytes()) ==> r == position_result(snapshot.bytes(), offset),
    {
        let r = self.find_position(snapshot, offset);
        proof {
            let text = snapshot.bytes();
            if self.describes(text) {
                use_type_invariant(self);
                encode_utf8_valid_utf8(snapshot@);
                lemma_line_starts_boundaries(text);
                lemma_line_starts_shape(text);
                if offset@ <= text.len() && at_char_boundary(text, offset@ as int) {
                    let starts = line_starts_of(text);
                    let line = choose|line: int| #[trigger] line_holds(starts, offset@ as int, line) && (if at_char_boundary(text, starts[line]) {
                        r matches Ok(p) && p.line() == line && p.column() == decode_utf8(text.subrange(starts[line], offset@ as int)).len()
                    } else {
                        r == Err::<Position, DocumentError>(DocumentError::InvalidUtf8Boundary {
                            offset: TextOffset::spec_new(starts[line] as usize),
                        })
                    });
                    assert(at_char_boundary(text, starts[line]));
                    lemma_line_unique(text, offset@ as int, line, super::line_of_offset(text, offset@ as int));
                    let p = r->Ok_0;
                    let column = decode_utf8(text.subrange(starts[line], offset@ as int)).len();
                    Position::lemma_spec_new(line as usize, column as usize);
                    Position::lemma_fields_injective(p, Position::spec_new(line as usize, column as usize));
                }
            }
        }
        r
    }

    fn find_position(&self, snapshot: &TextSnapshot, offset: TextOffset) -> (r: Result<Position, DocumentError>)
        ensures
            ({
                let bytes = snapshot.bytes();
                let starts = self.starts();
                if offset@ > bytes.len() {
                    r == Err::<Position, DocumentError>(DocumentError::RangeOutOfBounds { len: bytes.len() as usize, start: offset, end: offset })
                } else if !at_char_boundary(bytes, offset@ as int) {
                    r == Err::<Position, DocumentError>(DocumentError::InvalidUtf8Boundary { offset })
                } else {
                    exists|line: int| {
                        &&& #[trigger] line_holds(starts, offset@ as int, line)
                        &&& if at_char_boundary(bytes, starts[line]) {
                            r matches Ok(p) && p.line() == line && p.column() == decode_utf8(
                                bytes.subrange(starts[line], offset@ as int),
                            ).len()
                        } else {
                            r == Err::<Position, DocumentError>(DocumentError::InvalidUtf8Boundary {
                                offset: TextOffset::spec_new(starts[line] as usize),
                            })
                        }
                    }
                }
            }),
            self.describes(snapshot.bytes()) && offset@ <= snapshot.bytes().len() && at_char_boundary(
                snapshot.bytes(),
                offset@ as int,
            ) ==> r is Ok,
    {
        proof {
            use_type_invariant(self);
            encode_utf8_valid_utf8(snapshot@);
        }
        let len = snapshot.len_bytes();
        if offset.value() > len {
            return Err(DocumentError::RangeOutOfBounds { len, start: offset, end: offset });
        }
        let text = snapshot.as_str();
        proof {
            lemma_boundary_iff(snapshot.bytes(), offset@ as int);
        }
        if !text.is_char_boundary(offset.value()) {
            return Err(DocumentError::InvalidUtf8Boundary { offset });
        }
        let count = self.count_starts_at_or_before(offset.value());
        proof {
            assert(self.starts()[0] <= offset@);
        }
        let line = count - 1;
        let line_start = self.line_starts[line];
        proof {
            assert(line_start@ == self.starts()[line as int]);
            assert(line_holds(self.starts(), offset@ as int, line as int));
            if self.describes(snapshot.bytes()) {
                lemma_line_starts_boundaries(snapshot.bytes());
            }
            TextOffset::lemma_spec_new(line_start@);
            TextOffset::lemma_view_injective(line_start, TextOffset::spec_new(line_start@));
        }
        let r = match snapshot.char_column(line_start, offset) {
            Ok(column) => Ok(Position::new(line, column)),
            Err(e) => Err(e),
        };
        proof {
            let starts = self.starts();
            let bytes = snapshot.bytes();
            let l = line as int;
            assert(line_holds(starts, offset@ as int, l));
            if at_char_boundary(bytes, starts[l]) {
                assert(r matches Ok(p) && p.line() == l && p.column() == decode_utf8(bytes.subrange(starts[l], offset@ as int)).len());
            } else {
                assert(r == Err::<Position, DocumentError>(DocumentError::InvalidUtf8Boundary {
                    offset: TextOffset::spec_new(starts[l] as usize),
                }));
            }
        }
        r
    }

    /// The offset of `position` in `snapshot`: refused when the line does not exist
    /// or has fewer characters than the column before its line feed. For an index of
    /// the snapshot's own text, that is `position_offset`.
    pub fn position_to_offset(&self, snapshot: &TextSnapshot, position: Position) -> (r: Result<TextOffset, DocumentError>)
        ensures
            ({
                let bytes = snapshot.bytes();
                let starts = self.starts();
                let line = position.line() as int;
                let not_found = DocumentError::PositionOutOfBounds { line: position.line(), column: position.column() };
                if line >= starts.len() {
                    r == Err::<TextOffset, DocumentError>(not_found)
                } else {
                    let ls = starts[line];
                    let le = if line + 1 < starts.len() { starts[line + 1] } else { bytes.len() as int };
                    let lso = TextOffset::spec_new(ls as usize);
                    let leo = TextOffset::spec_new(le as usize);
                    if ls > le {
                        r == Err::<TextOffset, DocumentError>(DocumentError::InvalidRange { start: lso, end: leo })
                    } else {
                        match TextSnapshot::slice_error(bytes, lso, leo) {
                            Err(e) => r == Err::<TextOffset, DocumentError>(e),
                            Ok(_) => match column_byte_offset(
                                decode_utf8(bytes.subrange(ls, le)),
                                position.column() as int,
                            ) {
                                Some(k) => r matches Ok(o) && o@ == ls + k,
                                None => r == Err::<TextOffset, DocumentError>(not_found),
                            },
                        }
                    }
                }
            }),
            self.describes(snapshot.bytes()) ==> match position_offset(snapshot.bytes(), position) {
                Some(o) => r matches Ok(offset) && offset@ == o,
                None => r == Err::<TextOffset, DocumentError>(
                    DocumentError::PositionOutOfBounds { line: position.line(), column: position.column() },
                ),
            },
    {
        let _len = snapshot.len_bytes();
        proof {
            let text = snapshot.bytes();
            if self.describes(text) {
                use_type_invariant(self);
                encode_utf8_valid_utf8(snapshot@);
                lemma_line_starts_shape(text);
                lemma_line_starts_boundaries(text);
                let starts = line_starts_of(text);
                let line = position.line() as int;
                if line < starts.len() {
                    let ls = starts[line];
                    let le = next_line_start(text, line);
                    TextOffset::lemma_spec_new(ls as usize);
                    TextOffset::lemma_spec_new(le as usize);
                    if line + 1 < starts.len() {
                        assert(ls < le);
                    }
                }
            }
        }
        self.find_offset(snapshot, position)
    }

    fn find_offset(&self, snapshot: &TextSnapshot, position: Position) -> (r: Result<TextOffset, DocumentError>)
        ensures
            ({
                let bytes = snapshot.bytes();
                let starts = self.starts();
                let line = position.line() as int;
                let not_found = DocumentError::PositionOutOfBounds { line: position.line(), column: position.column() };
                if line >= starts.len() {
                    r == Err::<TextOffset, DocumentError>(not_found)
                } else {
                    let ls = starts[line];
                    let le = if line + 1 < starts.len() { starts[line + 1] } else { bytes.len() as int };
                    let lso = TextOffset::spec_new(ls as usize);
                    let leo = TextOffset::spec_new(le as usize);
                    if ls > le {
                        r == Err::<TextOffset, DocumentError>(DocumentError::InvalidRange { start: lso, end: leo })
                    } else {
                        match TextSnapshot::slice_error(bytes, lso, leo) {
                            Err(e) => r == Err::<TextOffset, DocumentError>(e),
                            Ok(_) => match column_byte_offset(
                                decode_utf8(bytes.subrange(ls, le)),
                                position.column() as int,
                            ) {
                                Some(k) => r matches Ok(o) && o@ == ls + k,
                                None => r == Err::<TextOffset, DocumentError>(not_found),
                            },
                        }
                    }
                }
            }),
    {
        proof {
            use_type_invariant(self);
            lemma_line_starts_shape(snapshot.bytes());
        }
        let line_start = match self.line_start(position.line()) {
            Some(start) => start,
            None => {
                return Err(
                    DocumentError::PositionOutOfBounds { line: position.line(), column: position.column() },
                );
            },
        };
        let len = snapshot.len_bytes();
        let line_end = match self.line_start(position.line() + 1) {
            Some(end) => end,
            None => TextOffset::new(len),
        };
        proof {
            TextOffset::lemma_spec_new(line_start@);
            TextOffset::lemma_spec_new(line_end@);
            TextOffset::lemma_view_injective(line_start, TextOffset::spec_new(line_start@));
            TextOffset::lemma_view_injective(line_end, TextOffset::spec_new(line_end@));
            assert(line_end@ == if position.line() + 1 < self.starts().len() {
                self.starts()[position.line() + 1]
            } else {
                snapshot.bytes().len() as int
            });
        }
        let range = match TextRange::new(line_start, line_end) {
            Ok(range) => range,
            Err(e) => {
                return Err(e);
            },
        };
        let line_text = match snapshot.slice(range) {
            Ok(line_text) => line_text,
            Err(e) => {
                return Err(e);
            },
        };
        proof {
            encode_utf8_decode_utf8(line_text@);
            assert(decode_utf8(snapshot.bytes().subrange(line_start@ as int, line_end@ as int)) == line_text@);
            assert(line_start@ == self.starts()[position.line() as int]);
        }
        let found = column_to_byte_offset(line_text, position.column());
        proof {
            let ls = self.starts()[position.line() as int];
            let le = line_end@ as int;
            assert(TextSnapshot::slice_error(snapshot.bytes(), line_start, line_end) is Ok);
            assert(TextOffset::spec_new(ls as usize) == line_start);
            assert(TextOffset::spec_new(le as usize) == line_end);
            assert(ls <= le);
        }
        match found {
            Some(byte_offset) => {
                proof {
                    let chars = line_text@;
                    let c = position.column() as int;
                    assert(chars =~= chars.take(c) + chars.skip(c));
                    lemma_encode_concat(chars.take(c), chars.skip(c));
                    assert(byte_offset <= encode_utf8(line_text@).len());
                    assert(line_start@ + byte_offset <= snapshot.bytes().len());
                }
                Ok(TextOffset::new(line_start.value() + byte_offset))
            },
            None => Err(
                DocumentError::PositionOutOfBounds { line: position.line(), column: position.column() },
            ),
        }
    }

    /// Updates the index after `removed_len` bytes at `change_start` were replaced by
    /// `inserted_text` in `text`, the text the index describes.
    pub fn apply_change(
        &mut self,
        change_start: TextOffset,
        removed_len: usize,
        inserted_text: &str,
        Ghost(text): Ghost<Seq<u8>>,
    )
        requires
            old(self).describes(text),
            text.len() <= usize::MAX,
            change_start@ + removed_len <= text.len(),
            text.len() - removed_len + encode_utf8(inserted_text@).len() <= usize::MAX,
        ensures
            final(self).describes(
                splice(
                    text,
                    change_start@ as int,
                    change_start@ + removed_len,
                    encode_utf8(inserted_text@),
                ),
            ),
    {
        proof {
            use_type_invariant(&*self);
        }
        let cs = change_start.value();
        let change_end = change_start.checked_add(removed_len);
        let ce = change_end.value();
        let ins = inserted_text.as_bytes();
        let ghost ins_bytes = ins@;
        let ghost a = text.subrange(0, cs as int);
        let ghost rm = text.subrange(cs as int, ce as int);
        let ghost c = text.subrange(ce as int, text.len() as int);
        let ghost old_starts = self.starts();
        let ghost ns_a = newline_starts(a, 0);
        let ghost ns_r = newline_starts(rm, cs as int);
        let ghost ns_c = newline_starts(c, ce as int);
        proof {
            assert(text =~= a + rm + c);
            lemma_newline_starts_concat(a + rm, c, 0);
            lemma_newline_starts_concat(a, rm, 0);
            lemma_newline_starts_bounds(a, 0);
            lemma_newline_starts_bounds(rm, cs as int);
            lemma_newline_starts_bounds(c, ce as int);
            assert(old_starts =~= seq![0int] + ns_a + ns_r + ns_c);
        }
        let start_index = self.count_starts_at_or_before(cs);
        let end_index = self.count_starts_at_or_before(ce);
        proof {
            let na = ns_a.len() as int;
            let nr = ns_r.len() as int;
            assert forall|i: int| 0 <= i < old_starts.len() implies
                (i <= na ==> #[trigger] old_starts[i] <= cs)
                && (na < i <= na + nr ==> cs < old_starts[i] <= ce)
                && (na + nr < i ==> ce < old_starts[i]) by {
                if 1 <= i <= na {
                    assert(old_starts[i] == ns_a[i - 1]);
                } else if na < i <= na + nr {
                    assert(old_starts[i] == ns_r[i - 1 - na]);
                } else if na + nr < i {
                    assert(old_starts[i] == ns_c[i - 1 - na - nr]);
                }
            }
            if start_index < na + 1 {
                assert(old_starts[start_index as int] <= cs);
            }
            if start_index > na + 1 {
                assert(old_starts[na + 1] > cs);
            }
            if end_index < na + nr + 1 {
                assert(old_starts[end_index as int] <= ce);
            }
            if end_index > na + nr + 1 {
                assert(old_starts[na + nr + 1] > ce);
            }
            assert(start_index == na + 1);
            assert(end_index == na + nr + 1);
        }
        let mut new_starts: Vec<TextOffset> = Vec::new();
        let mut i: usize = 0;
        while i < start_index
            invariant
                self.starts() == old_starts,
                start_index <= old_starts.len(),
                i <= start_index,
                offsets_view(new_starts@) == old_starts.take(i as int),
            decreases start_index - i,
        {
            let ghost before = new_starts@;
            let o = self.line_starts[i];
            new_starts.push(o);
            proof {
                lemma_offsets_view_push(before, o);
                assert(o@ == old_starts[i as int]);
                assert(old_starts.take(i + 1) =~= old_starts.take(i as int).push(old_starts[i as int]));
            }
            i = i + 1;
        }
        let mut k: usize = 0;
        proof {
            assert(ins_bytes.take(0) =~= Seq::<u8>::empty());
            assert(offsets_view(new_starts@) =~= old_starts.take(start_index as int) + newline_starts(ins_bytes.take(0), cs as int));
        }
        while k < ins.len()
            invariant
                ins@ == ins_bytes,
                ins_bytes == encode_utf8(inserted_text@),
                k <= ins_bytes.len(),
                cs + ins_bytes.len() <= usize::MAX,
                offsets_view(new_starts@) == old_starts.take(start_index as int) + newline_starts(ins_bytes.take(k as int), cs as int),
            decreases ins_bytes.len() - k,
        {
            let ghost before = new_starts@;
            if ins[k] == 0x0a {
                let o = TextOffset::new(cs + k + 1);
                new_starts.push(o);
                proof {
                    lemma_offsets_view_push(before, o);
                }
            }
            proof {
                let t = ins_bytes.take(k + 1);
                assert(t.drop_last() =~= ins_bytes.take(k as int));
                assert(t.last() == ins_bytes[k as int]);
                assert(offsets_view(new_starts@) =~= old_starts.take(start_index as int) + newline_starts(t, cs as int));
            }
            k = k + 1;
        }
        proof {
            assert(ins_bytes.take(ins_bytes.len() as int) =~= ins_bytes);
        }
        let ghost mid = offsets_view(new_starts@);
        let inserted_len = ins.len();
        let mut j: usize = end_index;
        while j < self.line_starts.len()
            invariant
                self.starts() == old_starts,
                end_index <= j <= old_starts.len(),
                ce == cs + removed_len,
                forall|q: int| end_index <= q < old_starts.len() ==> ce < #[trigger] old_starts[q] <= text.len(),
                text.len() - removed_len + inserted_len <= usize::MAX,
                offsets_view(new_starts@).len() == mid.len() + (j - end_index),
                forall|q: int| 0 <= q < mid.len() ==> #[trigger] offsets_view(new_starts@)[q] == mid[q],
                forall|q: int| mid.len() <= q < offsets_view(new_starts@).len() ==>
                    #[trigger] offsets_view(new_starts@)[q] == old_starts[q - mid.len() + end_index] - removed_len + inserted_len,
            decreases old_starts.len() - j,
        {
            let value = self.line_starts[j].value();
            let ghost before = new_starts@;
            proof {
                assert(value == old_starts[j as int]);
            }
            let o = if value > ce {
                let shifted = if inserted_len >= removed_len {
                    value + (inserted_len - removed_len)
                } else {
                    value - (removed_len - inserted_len)
                };
                TextOffset::new(shifted)
            } else {
                TextOffset::new(value)
            };
            new_starts.push(o);
            proof {
                lemma_offsets_view_push(before, o);
            }
            j = j + 1;
        }
        proof {
            let new_text = splice(text, cs as int, ce as int, ins_bytes);
            assert(new_text =~= a + ins_bytes + c);
            lemma_newline_starts_concat(a + ins_bytes, c, 0);
            lemma_newline_starts_concat(a, ins_bytes, 0);
            lemma_newline_starts_shift(c, ce as int, cs + ins_bytes.len());
            let expected = line_starts_of(new_text);
            assert(expected =~= seq![0int] + ns_a + newline_starts(ins_bytes, cs as int) + newline_starts(c, cs + ins_bytes.len()));
            assert(old_starts.take(start_index as int) =~= seq![0int] + ns_a);
            assert(offsets_view(new_starts@) =~= expected) by {
                assert forall|q: int| 0 <= q < expected.len() implies #[trigger] offsets_view(new_starts@)[q] == expected[q] by {
                    if q >= mid.len() {
                        let r = q - mid.len();
                        assert(old_starts[r + end_index] == ns_c[r]);
                    }
                }
            }
            lemma_line_starts_shape(new_text);
            assert(new_starts.len() == new_starts@.len());
        }
        self.line_starts = new_starts;
    }

    /// The number of line starts at or before `x`.
    fn count_starts_at_or_before(&self, x: usize) -> (k: usize)
        ensures
            k <= self.starts().len(),
            forall|i: int| 0 <= i < k ==> #[trigger] self.starts()[i] <= x,
            forall|i: int| k <= i < self.starts().len() ==> #[trigger] self.starts()[i] > x,
    {
        proof {
            use_type_invariant(self);
        }
        let mut lo: usize = 0;
        let mut hi: usize = self.line_starts.len();
        while lo < hi
            invariant
                0 <= lo <= hi <= self.starts().len(),
                self.sorted_from_zero(),
                forall|i: int| 0 <= i < lo ==> #[trigger] self.starts()[i] <= x,
                forall|i: int| hi <= i < self.starts().len() ==> #[trigger] self.starts()[i] > x,
            decreases hi - lo,
        {
            let mid = lo + (hi - lo) / 2;
            if self.line_starts[mid].value() <= x {
                proof {
                    assert forall|i: int| 0 <= i < mid + 1 implies #[trigger] self.starts()[i] <= x by {
                        if i < mid {
                            assert(self.starts()[i] < self.starts()[mid as int]);
                        }
                    }
                }
                lo = mid + 1;
            } else {
                proof {
                    assert forall|i: int| mid <= i < self.starts().len() implies #[trigger] self.starts()[i] > x by {
                        if i > mid {
                            assert(self.starts()[mid as int] < self.starts()[i]);
                        }
                    }
                }
                hi = mid;
            }
        }
        lo
    }
}

impl Clone for LineIndex {
    fn clone(&self) -> (c: Self)
        ensures
            c.starts() == self.starts(),
    {
        proof {
            use_type_invariant(self);
        }
        let line_starts = self.copy_starts();
        let c = Self { line_starts };
        proof {
            assert(c.starts() =~= self.starts());
        }
        c
    }
}

} // verus!
