use vstd::prelude::*;
use vstd::std_specs::convert::{FromSpecImpl, TryFromSpecImpl};

use crate::application::commands::{opt_string_view, DocumentSnapshot, EditResult, PerformanceTelemetry};
use crate::domain::document::{
    document_error_message, ChangeSet, ChangeSetView, Edit, EditView, NewlineMode, TextOffset, TextRange,
};

verus! {

/// A request to create a document, with its initial text if any.
#[derive(Debug, Clone, PartialEq, Eq)]
pub struct CreateDocumentRequest {
    pub text: Option<String>,
}

/// A request to open the file at `path`.
#[derive(Debug, Clone, PartialEq, Eq)]
pub struct OpenDocumentRequest {
    pub path: String,
}

/// A request to save the document of session `document_id`.
#[derive(Debug, Clone, PartialEq, Eq)]
pub struct SaveDocumentRequest {
    pub document_id: u64,
    pub expected_revision: Option<u64>,
    pub path: Option<String>,
}

/// A reference to the document of session `document_id`.
#[derive(Debug, Clone, Copy, PartialEq, Eq, Structural)]
pub struct DocumentReference {
    pub document_id: u64,
}

/// A reference to the document of session `document_id`, expected at a revision.
#[derive(Debug, Clone, Copy, PartialEq, Eq, Structural)]
pub struct RevisionedDocumentReference {
    pub document_id: u64,
    pub expected_revision: Option<u64>,
}

/// An edit as a client sends it, by byte offsets.
#[derive(Debug, Clone, PartialEq, Eq)]
pub enum EditCommandDto {
    Insert { offset: usize, text: String },
    Delete { start: usize, end: usize },
    Replace { start: usize, end: usize, text: String },
}

/// A request to edit the document of session `document_id`.
#[derive(Debug, Clone, PartialEq, Eq)]
pub struct EditDocumentRequest {
    pub document_id: u64,
    pub expected_revision: Option<u64>,
    pub edit: EditCommandDto,
}

/// Timings as a client receives them.
#[derive(Debug, Clone, Copy, PartialEq, Eq, Structural)]
pub struct PerformanceTelemetryDto {
    pub document_operation_nanos: Option<u64>,
    pub snapshot_build_nanos: Option<u64>,
}

/// A document snapshot as a client receives it.
#[derive(Debug, Clone, PartialEq, Eq)]
pub struct DocumentSnapshotDto {
    pub document_session_id: u64,
    pub document_id: u64,
    pub revision: u64,
    pub text: String,
    pub line_count: usize,
    pub newline_mode: &'static str,
    pub path: Option<String>,
    pub telemetry: Option<PerformanceTelemetryDto>,
}

/// The name a client knows a line ending by.
pub open spec fn newline_name(mode: NewlineMode) -> Seq<char> {
    match mode {
        NewlineMode::Lf => "lf"@,
        NewlineMode::Crlf => "crlf"@,
    }
}

/// The timings a client receives for `t`.
pub open spec fn telemetry_dto(t: Option<PerformanceTelemetry>) -> Option<PerformanceTelemetryDto> {
    match t {
        Some(t) => Some(
            PerformanceTelemetryDto {
                document_operation_nanos: t.document_operation_nanos,
                snapshot_build_nanos: t.snapshot_build_nanos,
            },
        ),
        None => None,
    }
}

/// The name of `mode`, as the literal a client receives.
pub open spec fn newline_literal(mode: NewlineMode) -> &'static str {
    match mode {
        NewlineMode::Lf => "lf",
        NewlineMode::Crlf => "crlf",
    }
}

fn newline_str(mode: NewlineMode) -> (s: &'static str)
    ensures
        s == newline_literal(mode),
        s@ == newline_name(mode),
{
    match mode {
        NewlineMode::Lf => "lf",
        NewlineMode::Crlf => "crlf",
    }
}

impl From<DocumentSnapshot> for DocumentSnapshotDto {
    fn from(value: DocumentSnapshot) -> (dto: Self)
        ensures
            dto.document_session_id == value.document_session_id@,
            dto.document_id == value.document_id@,
            dto.revision == value.revision@,
            dto.text@ == value.text@,
            dto.line_count == value.line_count,
            dto.newline_mode@ == newline_name(value.newline_mode),
            opt_string_view(dto.path) == opt_string_view(value.path),
            dto.telemetry == telemetry_dto(value.telemetry),
    {
        let telemetry = match value.telemetry {
            Some(t) => Some(
                PerformanceTelemetryDto {
                    document_operation_nanos: t.document_operation_nanos,
                    snapshot_build_nanos: t.snapshot_build_nanos,
                },
            ),
            None => None,
        };
        DocumentSnapshotDto {
            document_session_id: value.document_session_id.value(),
            document_id: value.document_id.value(),
            revision: value.revision.value(),
            text: value.text,
            line_count: value.line_count,
            newline_mode: newline_str(value.newline_mode),
            path: value.path,
            telemetry,
        }
    }
}

impl FromSpecImpl<DocumentSnapshot> for DocumentSnapshotDto {
    open spec fn obeys_from_spec() -> bool {
        true
    }

    open spec fn from_spec(v: DocumentSnapshot) -> Self {
        DocumentSnapshotDto {
            document_session_id: v.document_session_id@,
            document_id: v.document_id@,
            revision: v.revision@,
            text: v.text,
            line_count: v.line_count,
            newline_mode: newline_literal(v.newline_mode),
            path: v.path,
            telemetry: telemetry_dto(v.telemetry),
        }
    }
}

/// A byte range as a client receives it.
#[derive(Debug, Clone, Copy, PartialEq, Eq, Structural)]
pub struct RangeDto {
    pub start: usize,
    pub end: usize,
}

impl From<TextRange> for RangeDto {
    fn from(value: TextRange) -> (dto: Self)
        ensures
            dto.start == value.start()@,
            dto.end == value.end()@,
    {
        RangeDto { start: value.start().value(), end: value.end().value() }
    }
}

impl FromSpecImpl<TextRange> for RangeDto {
    open spec fn obeys_from_spec() -> bool {
        true
    }

    open spec fn from_spec(v: TextRange) -> Self {
        RangeDto { start: v.start()@, end: v.end()@ }
    }
}

/// A change set as a client receives it.
#[derive(Debug, Clone, PartialEq, Eq)]
pub struct ChangeSetDto {
    pub revision_before: u64,
    pub revision_after: u64,
    pub range_before: RangeDto,
    pub range_after: RangeDto,
    pub inserted_text: String,
    pub removed_text: String,
}

/// `dto` carries change set `c`.
pub open spec fn change_dto_matches(dto: ChangeSetDto, c: ChangeSetView) -> bool {
    &&& dto.revision_before == c.revision_before
    &&& dto.revision_after == c.revision_after
    &&& dto.range_before == (RangeDto { start: c.range_before.start()@, end: c.range_before.end()@ })
    &&& dto.range_after == (RangeDto { start: c.range_after.start()@, end: c.range_after.end()@ })
    &&& dto.inserted_text@ == c.inserted
    &&& dto.removed_text@ == c.removed
}

impl From<ChangeSet> for ChangeSetDto {
    fn from(value: ChangeSet) -> (dto: Self)
        ensures
            change_dto_matches(dto, value@),
    {
        ChangeSetDto {
            revision_before: value.revision_before().value(),
            revision_after: value.revision_after().value(),
            range_before: RangeDto::from(value.range_before()),
            range_after: RangeDto::from(value.range_after()),
            inserted_text: value.inserted_text().to_owned(),
            removed_text: value.removed_text().to_owned(),
        }
    }
}

/// The texts of the converted change set are new strings with the same
/// characters, which no specification can tell apart from others with the same
/// characters; so the conversion is specified by `From::from`'s own `ensures`.
impl FromSpecImpl<ChangeSet> for ChangeSetDto {
    open spec fn obeys_from_spec() -> bool {
        false
    }

    open spec fn from_spec(v: ChangeSet) -> Self {
        choose|dto: ChangeSetDto| change_dto_matches(dto, v@)
    }
}

/// The change sets of an edit, undo or redo as a client receives them.
#[derive(Debug, Clone, PartialEq, Eq)]
pub struct EditResultDto {
    pub document_session_id: u64,
    pub document_id: u64,
    pub changes: Vec<ChangeSetDto>,
}

/// `dto` carries edit result `r`.
pub open spec fn edit_result_dto_matches(dto: EditResultDto, r: EditResult) -> bool {
    &&& dto.document_session_id == r.document_session_id@
    &&& dto.document_id == r.document_id@
    &&& dto.changes@.len() == r.changes@.len()
    &&& forall|i: int| 0 <= i < dto.changes@.len() ==> change_dto_matches(#[trigger] dto.changes@[i], r.changes@[i]@)
}

impl From<EditResult> for EditResultDto {
    fn from(value: EditResult) -> (dto: Self)
        ensures
            edit_result_dto_matches(dto, value),
    {
        let mut changes: Vec<ChangeSetDto> = Vec::new();
        let mut i: usize = 0;
        while i < value.changes.len()
            invariant
                i <= value.changes.len(),
                changes@.len() == i,
                forall|j: int| 0 <= j < i ==> change_dto_matches(#[trigger] changes@[j], value.changes@[j]@),
            decreases value.changes.len() - i,
        {
            let change = value.changes[i].clone();
            changes.push(ChangeSetDto::from(change));
            i = i + 1;
        }
        EditResultDto {
            document_session_id: value.document_session_id.value(),
            document_id: value.document_id.value(),
            changes,
        }
    }
}

/// The converted change sets are new values, specified by `From::from`'s own
/// `ensures` (see the conversion of a single change set).
impl FromSpecImpl<EditResult> for EditResultDto {
    open spec fn obeys_from_spec() -> bool {
        false
    }

    open spec fn from_spec(v: EditResult) -> Self {
        choose|dto: EditResultDto| edit_result_dto_matches(dto, v)
    }
}

/// The edit a client's command stands for, or the reason it is refused: a range
/// whose start is past its end.
pub open spec fn edit_of_command(command: EditCommandDto) -> Result<EditView, Seq<char>> {
    match command {
        EditCommandDto::Insert { offset, text } => Ok(EditView::Insert { offset: TextOffset::spec_new(offset), text: text@ }),
        EditCommandDto::Delete { start, end } => if start <= end {
            Ok(EditView::Delete { range: TextRange::spec_between(TextOffset::spec_new(start), TextOffset::spec_new(end)) })
        } else {
            Err(document_error_message(
                crate::domain::document::DocumentError::InvalidRange { start: TextOffset::spec_new(start), end: TextOffset::spec_new(end) },
            ))
        },
        EditCommandDto::Replace { start, end, text } => if start <= end {
            Ok(
                EditView::Replace {
                    range: TextRange::spec_between(TextOffset::spec_new(start), TextOffset::spec_new(end)),
                    text: text@,
                },
            )
        } else {
            Err(document_error_message(
                crate::domain::document::DocumentError::InvalidRange { start: TextOffset::spec_new(start), end: TextOffset::spec_new(end) },
            ))
        },
    }
}

/// `r` is the conversion of `command`: the edit it stands for, or the message of
/// its refusal.
pub open spec fn command_converted(command: EditCommandDto, r: Result<Edit, String>) -> bool {
    match edit_of_command(command) {
        Ok(edit) => r matches Ok(e) && e@ == edit,
        Err(message) => r matches Err(m) && m@ == message,
    }
}

impl TryFrom<EditCommandDto> for Edit {
    type Error = String;

    fn try_from(value: EditCommandDto) -> (r: Result<Self, Self::Error>)
        ensures
            command_converted(value, r),
    {
        match value {
            EditCommandDto::Insert { offset, text } => Ok(Edit::Insert { offset: TextOffset::new(offset), text }),
            EditCommandDto::Delete { start, end } => match TextRange::new(TextOffset::new(start), TextOffset::new(end)) {
                Ok(range) => Ok(Edit::Delete { range }),
                Err(error) => Err(error.message()),
            },
            EditCommandDto::Replace { start, end, text } => match TextRange::new(
                TextOffset::new(start),
                TextOffset::new(end),
            ) {
                Ok(range) => Ok(Edit::Replace { range, text }),
                Err(error) => Err(error.message()),
            },
        }
    }
}

/// A refused command's message is a new string, which no specification can tell
/// apart from others with the same characters; so the conversion is specified by
/// `TryFrom::try_from`'s own `ensures`.
impl TryFromSpecImpl<EditCommandDto> for Edit {
    open spec fn obeys_try_from_spec() -> bool {
        false
    }

    open spec fn try_from_spec(v: EditCommandDto) -> Result<Self, String> {
        choose|r: Result<Edit, String>| #[trigger] command_converted(v, r)
    }
}

} // verus!
