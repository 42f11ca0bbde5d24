//! The buffered sink that the aggregator writes to.

use crate::events::texts;
use crate::style::{header_code, paint_header, styled};
use vstd::prelude::*;

verus! {

/// One line of output, before it is turned into text.
#[derive(Clone, Debug, PartialEq, Eq)]
pub enum Record {
    /// The blank line between the groups of two files.
    Separator,
    /// The path of the file whose matches follow.
    Header(String),
    /// One matching line, as it was rendered.
    Line(String),
}

pub enum RecordView {
    Separator,
    Header(Seq<char>),
    Line(Seq<char>),
}

impl View for Record {
    type V = RecordView;

    open spec fn view(&self) -> RecordView {
        match self {
            Record::Separator => RecordView::Separator,
            Record::Header(path) => RecordView::Header(path@),
            Record::Line(text) => RecordView::Line(text@),
        }
    }
}

/// The views of a list of records, in order.
pub open spec fn record_views(records: Seq<Record>) -> Seq<RecordView> {
    records.map_values(|record: Record| record@)
}

/// The records that are shown: all of them, but for the headers when file
/// paths are hidden.
pub open spec fn visible(hide_filepath: bool, records: Seq<RecordView>) -> Seq<RecordView>
    decreases records.len(),
{
    if records.len() == 0 {
        seq![]
    } else {
        let before = visible(hide_filepath, records.drop_last());
        if hide_filepath && records.last() is Header {
            before
        } else {
            before.push(records.last())
        }
    }
}

/// `text` is what `record` looks like in the output.
pub open spec fn shows(record: RecordView, text: Seq<char>) -> bool {
    match record {
        RecordView::Separator => text.len() == 0,
        RecordView::Header(path) => styled(path, header_code(), text),
        RecordView::Line(line) => text == line,
    }
}

/// `lines` is the output for `records`: one line for each, in order.
pub open spec fn shows_all(records: Seq<RecordView>, lines: Seq<Seq<char>>) -> bool {
    &&& lines.len() == records.len()
    &&& forall|i: int| 0 <= i < records.len() ==> shows(#[trigger] records[i], lines[i])
}

pub struct WriterView {
    pub hide_filepath: bool,
    pub records: Seq<RecordView>,
}

/// Collects records until they are flushed.
pub struct Writer {
    hide_filepath: bool,
    pending: Vec<Record>,
}

impl View for Writer {
    type V = WriterView;

    closed spec fn view(&self) -> WriterView {
        WriterView { hide_filepath: self.hide_filepath, records: record_views(self.pending@) }
    }
}

impl Writer {
    /// A writer with nothing pending.
    pub fn new(hide_filepath: bool) -> (writer: Writer)
        ensures
            writer@ == (WriterView { hide_filepath, records: Seq::empty() }),
    {
        let writer = Writer { hide_filepath, pending: Vec::new() };
        assert(writer@.records =~= Seq::empty());
        writer
    }

    /// Adds the blank line that parts two groups.
    pub fn separator(&mut self)
        ensures
            final(self)@ == (WriterView {
                records: old(self)@.records.push(RecordView::Separator),
                ..old(self)@
            }),
    {
        self.pending.push(Record::Separator);
        assert(self@.records =~= old(self)@.records.push(RecordView::Separator));
    }

    /// Adds the header of a group.
    pub fn header(&mut self, path: &str)
        ensures
            final(self)@ == (WriterView {
                records: old(self)@.records.push(RecordView::Header(path@)),
                ..old(self)@
            }),
    {
        self.pending.push(Record::Header(path.to_owned()));
        assert(self@.records =~= old(self)@.records.push(RecordView::Header(path@)));
    }

    /// Adds one matching line.
    pub fn line(&mut self, text: &str)
        ensures
            final(self)@ == (WriterView {
                records: old(self)@.records.push(RecordView::Line(text@)),
                ..old(self)@
            }),
    {
        self.pending.push(Record::Line(text.to_owned()));
        assert(self@.records =~= old(self)@.records.push(RecordView::Line(text@)));
    }

    /// Hands out the text of what is pending, one string for each line of
    /// output, and leaves nothing pending. Headers are left out when file
    /// paths are hidden.
    pub fn flush(&mut self) -> (lines: Vec<String>)
        ensures
            final(self)@ == (WriterView { records: Seq::empty(), ..old(self)@ }),
            shows_all(visible(old(self)@.hide_filepath, old(self)@.records), texts(lines@)),
    {
        let mut lines: Vec<String> = Vec::new();
        let mut i: usize = 0;
        let ghost records = self@.records;
        let ghost hide = self.hide_filepath;
        while i < self.pending.len()
            invariant
                i <= self.pending.len(),
                *self == *old(self),
                records == record_views(self.pending@),
                hide == self.hide_filepath,
                shows_all(visible(hide, records.take(i as int)), texts(lines@)),
            decreases self.pending.len() - i,
        {
            let ghost shown = texts(lines@);
            proof {
                assert(records.take(i + 1).drop_last() =~= records.take(i as int));
                assert(records.take(i + 1).last() == records[i as int]);
            }
            match &self.pending[i] {
                Record::Separator => {
                    lines.push(String::new());
                    assert(texts(lines@) =~= shown.push(Seq::empty()));
                },
                Record::Header(path) => {
                    if !self.hide_filepath {
                        let text = paint_header(path.as_str());
                        lines.push(text);
                        assert(texts(lines@) =~= shown.push(text@));
                    }
                },
                Record::Line(line) => {
                    lines.push(line.clone());
                    assert(texts(lines@) =~= shown.push(line@));
                },
            }
            i += 1;
        }
        assert(records.take(i as int) =~= records);
        self.pending.clear();
        assert(self@.records =~= Seq::empty());
        lines
    }
}

} // verus!
