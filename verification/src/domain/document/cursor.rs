use vstd::prelude::*;

use super::{
    at_char_boundary, is_continuation, line_content_end, line_starts_of, position_offset, position_result,
    Document, DocumentError, Position, Selection, TextOffset, lemma_line_of_offset,
};

verus! {

/// A movement of the cursor.
#[derive(Debug, Clone, Copy, PartialEq, Eq, Structural)]
pub enum CursorMove {
    Left,
    Right,
    Up,
    Down,
    LineStart,
    LineEnd,
}

/// The rules that move a selection through a document's text.
pub struct CursorMoveRules;

/// The last character boundary of `text` at or before `index` (0 at the latest).
pub open spec fn boundary_at_or_before(text: Seq<u8>, index: int) -> int
    decreases index,
{
    if index <= 0 {
        0
    } else if at_char_boundary(text, index) {
        index
    } else {
        boundary_at_or_before(text, index - 1)
    }
}

/// The first character boundary of `text` at or after `index` (its end at the latest).
pub open spec fn boundary_at_or_after(text: Seq<u8>, index: int) -> int
    decreases text.len() - index,
{
    if index >= text.len() {
        text.len() as int
    } else if at_char_boundary(text, index) {
        index
    } else {
        boundary_at_or_after(text, index + 1)
    }
}

/// The inputs on which a move reads the text at the caret: a horizontal move of
/// a caret that is not at the edge it moves toward needs the caret on a character
/// boundary within the text.
pub open spec fn move_defined(text: Seq<u8>, selection: Selection, movement: CursorMove) -> bool {
    let active = selection.active()@;
    let caret = selection.anchor()@ == active;
    match movement {
        CursorMove::Left => caret && active != 0 ==> active <= text.len() && at_char_boundary(text, active as int),
        CursorMove::Right => caret && active != text.len() ==> active <= text.len() && at_char_boundary(
            text,
            active as int,
        ),
        _ => true,
    }
}

/// The caret at byte `offset`.
pub open spec fn caret_at(offset: int) -> Selection {
    Selection::spec_caret(TextOffset::spec_new(offset as usize))
}

/// Moving up or down one line keeps the column when the target line is long enough;
/// otherwise it lands at the start of the line above, or the end of the line below.
/// Moving up from the first line goes to the start of the text.
pub open spec fn vertical_result(text: Seq<u8>, selection: Selection, up: bool) -> Result<Selection, DocumentError> {
    match position_result(text, selection.active()) {
        Err(e) => Err(e),
        Ok(p) => if up && p.line() == 0 {
            Ok(caret_at(0))
        } else {
            let target = if up { (p.line() - 1) as usize } else { (p.line() + 1) as usize };
            match position_offset(text, Position::spec_new(target, p.column())) {
                Some(o) => Ok(caret_at(o)),
                None => if up {
                    Ok(caret_at(line_starts_of(text)[target as int]))
                } else if target < line_starts_of(text).len() {
                    Ok(caret_at(line_content_end(text, target as int)))
                } else {
                    Err(DocumentError::PositionOutOfBounds { line: target, column: 0 })
                },
            }
        },
    }
}

/// Where `movement` takes `selection` in `text`. A horizontal move of a non-empty
/// selection collapses it to the end it moves toward; a caret moves by one
/// character, and stays put at the edge of the text.
pub open spec fn move_result(text: Seq<u8>, selection: Selection, movement: CursorMove) -> Result<Selection, DocumentError> {
    let active = selection.active();
    let caret = selection.anchor()@ == active@;
    match movement {
        CursorMove::Left => if !caret {
            Ok(Selection::spec_caret(selection.spec_range().start()))
        } else if active@ == 0 {
            Ok(selection)
        } else {
            Ok(caret_at(boundary_at_or_before(text, active@ - 1)))
        },
        CursorMove::Right => if !caret {
            Ok(Selection::spec_caret(selection.spec_range().end()))
        } else if active@ == text.len() {
            Ok(selection)
        } else {
            Ok(caret_at(boundary_at_or_after(text, active@ + 1)))
        },
        CursorMove::Up => vertical_result(text, selection, true),
        CursorMove::Down => vertical_result(text, selection, false),
        CursorMove::LineStart => match position_result(text, active) {
            Err(e) => Err(e),
            Ok(p) => Ok(caret_at(line_starts_of(text)[p.line() as int])),
        },
        CursorMove::LineEnd => match position_result(text, active) {
            Err(e) => Err(e),
            Ok(p) => Ok(caret_at(line_content_end(text, p.line() as int))),
        },
    }
}

/// A caret built from an offset is the caret at that offset's number.
pub proof fn lemma_caret_at(offset: TextOffset)
    ensures
        Selection::spec_caret(offset) == caret_at(offset@ as int),
{
    TextOffset::lemma_spec_new(offset@);
    TextOffset::lemma_view_injective(offset, TextOffset::spec_new(offset@));
}

impl CursorMoveRules {
    /// Moves `selection` through `document` by `movement`.
    pub fn move_selection(document: &Document, selection: Selection, movement: CursorMove) -> (r: Result<
        Selection,
        DocumentError,
    >)
        requires
            document.well_formed(),
            move_defined(document@.text, selection, movement),
        ensures
            r == move_result(document@.text, selection, movement),
    {
        match movement {
            CursorMove::Left => Self::move_left(document, selection),
            CursorMove::Right => Self::move_right(document, selection),
            CursorMove::Up => Self::move_vertical(document, selection, -1),
            CursorMove::Down => Self::move_vertical(document, selection, 1),
            CursorMove::LineStart => Self::move_to_line_start(document, selection),
            CursorMove::LineEnd => Self::move_to_line_end(document, selection),
        }
    }

    fn move_left(document: &Document, selection: Selection) -> (r: Result<Selection, DocumentError>)
        requires
            document.well_formed(),
            move_defined(document@.text, selection, CursorMove::Left),
        ensures
            r == move_result(document@.text, selection, CursorMove::Left),
    {
        if !selection.is_caret() {
            return selection.collapse_to_start();
        }
        let current = selection.active();
        if current.value() == 0 {
            return Ok(selection);
        }
        let snapshot = document.snapshot();
        let bytes = snapshot.as_str().as_bytes();
        let ghost text = document@.text;
        let mut j: usize = current.value() - 1;
        while j > 0 && is_continuation(bytes[j])
            invariant
                bytes@ == text,
                0 <= j < current@ <= text.len(),
                boundary_at_or_before(text, j as int) == boundary_at_or_before(text, current@ - 1),
            decreases j,
        {
            j = j - 1;
        }
        Ok(Selection::caret(TextOffset::new(j)))
    }

    fn move_right(document: &Document, selection: Selection) -> (r: Result<Selection, DocumentError>)
        requires
            document.well_formed(),
            move_defined(document@.text, selection, CursorMove::Right),
        ensures
            r == move_result(document@.text, selection, CursorMove::Right),
    {
        if !selection.is_caret() {
            return selection.collapse_to_end();
        }
        let current = selection.active();
        let len = document.len_bytes();
        if current.value() == len {
            return Ok(selection);
        }
        let snapshot = document.snapshot();
        let bytes = snapshot.as_str().as_bytes();
        let ghost text = document@.text;
        let mut j: usize = current.value() + 1;
        while j < len && is_continuation(bytes[j])
            invariant
                bytes@ == text,
                len == text.len(),
                current@ < j <= len,
                boundary_at_or_after(text, j as int) == boundary_at_or_after(text, current@ + 1),
            decreases len - j,
        {
            j = j + 1;
        }
        Ok(Selection::caret(TextOffset::new(j)))
    }

    fn move_vertical(document: &Document, selection: Selection, line_delta: isize) -> (r: Result<
        Selection,
        DocumentError,
    >)
        requires
            document.well_formed(),
            line_delta == -1 || line_delta == 1,
        ensures
            r == vertical_result(document@.text, selection, line_delta < 0),
    {
        let position = match document.offset_to_position(selection.active()) {
            Ok(p) => p,
            Err(e) => {
                return Err(e);
            },
        };
        let ghost text = document@.text;
        proof {
            document.lemma_well_formed();
            lemma_line_of_offset(text, selection.active()@ as int);
            TextOffset::lemma_spec_new(selection.active()@);
            TextOffset::lemma_view_injective(selection.active(), TextOffset::spec_new(selection.active()@));
        }
        if line_delta < 0 && position.line() == 0 {
            return Ok(Selection::caret(TextOffset::new(0)));
        }
        let target_line = if line_delta < 0 {
            position.line() - 1
        } else {
            position.line() + 1
        };
        let target_position = Position::new(target_line, position.column());
        let offset = match document.position_to_offset(target_position) {
            Ok(offset) => offset,
            Err(DocumentError::PositionOutOfBounds { .. }) => {
                let fallback = if line_delta < 0 {
                    match document.line_start_offset(target_line) {
                        Ok(o) => o,
                        Err(e) => {
                            return Err(e);
                        },
                    }
                } else {
                    match document.line_end_offset(target_line) {
                        Ok(o) => o,
                        Err(e) => {
                            return Err(e);
                        },
                    }
                };
                fallback
            },
            Err(error) => {
                return Err(error);
            },
        };
        proof {
            lemma_caret_at(offset);
            TextOffset::lemma_spec_new(0);
        }
        Ok(Selection::caret(offset))
    }

    fn move_to_line_start(document: &Document, selection: Selection) -> (r: Result<Selection, DocumentError>)
        requires
            document.well_formed(),
        ensures
            r == move_result(document@.text, selection, CursorMove::LineStart),
    {
        let position = match document.offset_to_position(selection.active()) {
            Ok(p) => p,
            Err(e) => {
                return Err(e);
            },
        };
        proof {
            document.lemma_well_formed();
            lemma_line_of_offset(document@.text, selection.active()@ as int);
            TextOffset::lemma_spec_new(selection.active()@);
            TextOffset::lemma_view_injective(selection.active(), TextOffset::spec_new(selection.active()@));
        }
        match document.line_start_offset(position.line()) {
            Ok(o) => {
                proof {
                    lemma_caret_at(o);
                }
                Ok(Selection::caret(o))
            },
            Err(e) => Err(e),
        }
    }

    fn move_to_line_end(document: &Document, selection: Selection) -> (r: Result<Selection, DocumentError>)
        requires
            document.well_formed(),
        ensures
            r == move_result(document@.text, selection, CursorMove::LineEnd),
    {
        let position = match document.offset_to_position(selection.active()) {
            Ok(p) => p,
            Err(e) => {
                return Err(e);
            },
        };
        proof {
            document.lemma_well_formed();
            lemma_line_of_offset(document@.text, selection.active()@ as int);
            TextOffset::lemma_spec_new(selection.active()@);
            TextOffset::lemma_view_injective(selection.active(), TextOffset::spec_new(selection.active()@));
        }
        match document.line_end_offset(position.line()) {
            Ok(o) => {
                proof {
                    lemma_caret_at(o);
                }
                Ok(Selection::caret(o))
            },
            Err(e) => Err(e),
        }
    }
}

} // verus!
