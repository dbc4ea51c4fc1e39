//! The data carried through the filter pipeline: input records, output
//! entries, and the run configuration.

use vstd::prelude::*;

verus! {

/// One raw record from the entry source: a timestamped line whose text may
/// be absent. Records without text are skipped by the pipeline.
#[derive(Debug)]
pub struct Record {
    /// Start time in milliseconds from the start of the file.
    pub start_ms: i64,
    /// End time in milliseconds from the start of the file.
    pub end_ms: i64,
    /// The text of the line, if any.
    pub line: Option<String>,
}

/// The mathematical value of a [`Record`].
pub struct RecordModel {
    pub start: int,
    pub end: int,
    pub line: Option<Seq<char>>,
}

impl View for Record {
    type V = RecordModel;

    open spec fn view(&self) -> RecordModel {
        RecordModel {
            start: self.start_ms as int,
            end: self.end_ms as int,
            line: match self.line {
                Some(l) => Some(l@),
                None => None,
            },
        }
    }
}

/// One timestamped line of text, as emitted by the filter.
#[derive(Debug)]
pub struct Entry {
    /// Start time in milliseconds from the start of the file.
    pub start_ms: i64,
    /// End time in milliseconds from the start of the file.
    pub end_ms: i64,
    /// The text of the line.
    pub line: String,
    /// True exactly when this entry itself matched the configured pattern.
    pub is_match: bool,
}

/// The mathematical value of an [`Entry`].
pub struct EntryModel {
    pub start: int,
    pub end: int,
    pub line: Seq<char>,
    pub is_match: bool,
}

impl View for Entry {
    type V = EntryModel;

    open spec fn view(&self) -> EntryModel {
        EntryModel {
            start: self.start_ms as int,
            end: self.end_ms as int,
            line: self.line@,
            is_match: self.is_match,
        }
    }
}

impl Clone for Entry {
    fn clone(&self) -> (r: Self)
        ensures
            r@ == self@,
    {
        Entry {
            start_ms: self.start_ms,
            end_ms: self.end_ms,
            line: self.line.clone(),
            is_match: self.is_match,
        }
    }
}

/// The window of context kept around a match: either a number of
/// neighboring entries, or a span of elapsed time.
#[derive(Debug, Clone, Copy)]
pub enum ContextConfig {
    /// Keep a fixed number of entries before and after each match.
    Lines { before_context: u32, after_context: u32 },
    /// Keep the entries within the given spans of time, in milliseconds,
    /// before and after each match.
    Durations { before_duration: i64, after_duration: i64 },
}

/// The configuration of one filter run.
#[derive(Debug)]
pub struct Config {
    /// Which windowing strategy is active.
    pub context: ContextConfig,
    /// The pattern that an entry must contain to count as a match;
    /// with no pattern every entry is kept and none is flagged as a match.
    pub pattern: Option<String>,
    /// A (pattern, replacement) substitution applied to every line before
    /// matching; a line left empty by it is dropped from the run entirely.
    pub pre_replace: Option<(String, String)>,
    /// A (pattern, replacement) substitution applied to every emitted line.
    pub post_replace: Option<(String, String)>,
}

/// A configuration that cannot be used: one of its patterns does not
/// compile as a regular expression.
#[derive(Debug, PartialEq, Eq, Structural, Clone, Copy)]
pub enum FilterError {
    /// The match pattern is invalid.
    Pattern,
    /// The pre-replace pattern is invalid.
    PreReplace,
    /// The post-replace pattern is invalid.
    PostReplace,
}

/// The values of a sequence of entries.
pub open spec fn entries_view(s: Seq<Entry>) -> Seq<EntryModel> {
    s.map_values(|e: Entry| e@)
}

/// The values of a sequence of records.
pub open spec fn records_view(s: Seq<Record>) -> Seq<RecordModel> {
    s.map_values(|r: Record| r@)
}

} // verus!
