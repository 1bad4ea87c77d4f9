//! The lines that an extension shows in a pane.

use crate::view::extension::document::optional_chars;
use vstd::prelude::*;
use vstd::string::{StrSliceExecFns, StringExecFns};

verus! {

/// How many characters of a message are shown at most.
pub const MAX_MESSAGE_CHARS: usize = 512;

/// A stretch of a line, with the name of its face where it has one.
pub struct SegmentModel {
    pub text: Seq<char>,
    pub face: Option<Seq<char>>,
}

/// Lines, with the name of the face below them where there is one.
#[verifier::ext_equal]
pub struct LinesModel {
    pub base_face: Option<Seq<char>>,
    pub rows: Seq<Seq<SegmentModel>>,
}

/// A stretch of a line, with the name of its face where it has one.
#[derive(Debug, PartialEq, Eq)]
pub struct NamedLineSegment {
    pub text: String,
    pub face: Option<String>,
}

/// Lines, with the name of the face below them where there is one.
#[derive(Debug, PartialEq, Eq)]
pub struct NamedLinesPresentation {
    pub base_face: Option<String>,
    pub rows: Vec<Vec<NamedLineSegment>>,
}

impl NamedLineSegment {
    pub open spec fn model(self) -> SegmentModel {
        SegmentModel { text: self.text@, face: optional_chars(self.face) }
    }
}

/// The stretches of a line.
pub open spec fn segments_of(row: Seq<NamedLineSegment>) -> Seq<SegmentModel> {
    row.map_values(|segment: NamedLineSegment| segment.model())
}

impl NamedLinesPresentation {
    pub open spec fn model(self) -> LinesModel {
        LinesModel {
            base_face: optional_chars(self.base_face),
            rows: self.rows@.map_values(|row: Vec<NamedLineSegment>| segments_of(row@)),
        }
    }
}

/// A copy of a text that may not be there.
fn copy_text(text: &Option<String>) -> (copy: Option<String>)
    ensures
        optional_chars(copy) == optional_chars(*text),
{
    match text {
        Some(text) => Some(text.clone()),
        None => None,
    }
}

/// A copy of a line.
fn copy_row(row: &Vec<NamedLineSegment>) -> (copy: Vec<NamedLineSegment>)
    ensures
        segments_of(copy@) == segments_of(row@),
{
    let ghost all = segments_of(row@);
    let mut copy: Vec<NamedLineSegment> = Vec::new();
    let mut i: usize = 0;
    while i < row.len()
        invariant
            i <= row.len(),
            all == segments_of(row@),
            segments_of(copy@) =~= all.take(i as int),
        decreases row.len() - i,
    {
        let ghost before = copy@;
        let segment = NamedLineSegment {
            text: row[i].text.clone(),
            face: copy_text(&row[i].face),
        };
        copy.push(segment);
        assert(all[i as int] == segment.model());
        assert(segments_of(copy@) =~= segments_of(before).push(segment.model()));
        assert(all.take(i + 1) =~= all.take(i as int).push(segment.model()));
        i = i + 1;
    }
    assert(all.take(i as int) =~= all);
    copy
}

impl Clone for NamedLinesPresentation {
    fn clone(&self) -> (copy: Self)
        ensures
            copy.model() == self.model(),
    {
        let ghost all = self.model().rows;
        let mut rows: Vec<Vec<NamedLineSegment>> = Vec::new();
        let mut i: usize = 0;
        while i < self.rows.len()
            invariant
                i <= self.rows.len(),
                all == self.model().rows,
                rows@.len() == i,
                forall|j: int| 0 <= j < i ==> segments_of((#[trigger] rows@[j])@) == all[j],
            decreases self.rows.len() - i,
        {
            let row = copy_row(&self.rows[i]);
            assert(all[i as int] == segments_of(self.rows@[i as int]@));
            rows.push(row);
            i = i + 1;
        }
        let copy = NamedLinesPresentation { base_face: copy_text(&self.base_face), rows };
        assert(copy.model().rows =~= all);
        copy
    }
}

/// What is shown of a message: as many characters as fit.
pub open spec fn bounded(message: Seq<char>) -> Seq<char> {
    if message.len() <= MAX_MESSAGE_CHARS {
        message
    } else {
        message.take(MAX_MESSAGE_CHARS as int)
    }
}

/// What is shown in the place of what an extension does not provide.
pub open spec fn fault_lines(message: Seq<char>) -> LinesModel {
    LinesModel {
        base_face: None,
        rows: seq![seq![SegmentModel { text: "extension fault: "@ + message, face: None }]],
    }
}

/// What is shown of a message.
pub fn bounded_message(message: String) -> (shown: String)
    ensures
        shown@ == bounded(message@),
{
    if message.as_str().unicode_len() <= MAX_MESSAGE_CHARS {
        message
    } else {
        String::from_str(message.as_str().substring_char(0, MAX_MESSAGE_CHARS))
    }
}

/// What is shown in the place of what an extension does not provide.
pub fn fault_presentation(message: &str) -> (presentation: NamedLinesPresentation)
    ensures
        presentation.model() == fault_lines(message@),
{
    let mut text = String::from_str("extension fault: ");
    text.append(message);
    let segment = NamedLineSegment { text, face: None };
    let mut row: Vec<NamedLineSegment> = Vec::new();
    row.push(segment);
    let mut rows: Vec<Vec<NamedLineSegment>> = Vec::new();
    let ghost shown = row@;
    rows.push(row);
    let presentation = NamedLinesPresentation { base_face: None, rows };
    proof {
        let expected = fault_lines(message@);
        assert(segments_of(shown) =~= expected.rows[0]);
        assert(presentation.model().rows =~= expected.rows);
    }
    presentation
}

/// Nothing is lost of a short message, and a long one is cut.
pub proof fn law_messages_are_bounded(message: Seq<char>)
    ensures
        bounded(message).len() <= MAX_MESSAGE_CHARS,
        bounded(message).is_prefix_of(message),
        message.len() <= MAX_MESSAGE_CHARS ==> bounded(message) == message,
        bounded(bounded(message)) == bounded(message),
{
}

} // verus!
