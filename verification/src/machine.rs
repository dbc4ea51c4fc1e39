//! The mathematical model of the filter: what each stage of the pipeline
//! produces, stated over sequences and the named results of the
//! regular-expression operations.
//!
//! The pipeline has three stages. First every record is pre-rewritten,
//! skipped when it has no text or when the pre-rewrite empties it, and
//! flagged as a match or not ([`processed`]). Then the context
//! accumulator walks that stream once, in order, and decides which
//! entries to emit ([`accumulate`]). Last the post-rewrite is applied to
//! every emitted entry ([`post_all`]).

use vstd::prelude::*;

use crate::model::{Config, ContextConfig, EntryModel, RecordModel};
use crate::rx::{re_compiles, re_is_match, re_replace_all};

verus! {

/// The line that an optional (pattern, replacement) substitution leaves
/// behind: `line` itself when no substitution is configured.
pub open spec fn apply_rewrite(rw: Option<(String, String)>, line: Seq<char>) -> Seq<char> {
    match rw {
        Some(pr) => re_replace_all(pr.0@, pr.1@, line),
        None => line,
    }
}

/// Whether a line is a direct match: it contains the configured pattern.
/// With no pattern configured nothing is a direct match.
pub open spec fn line_is_match(pattern: Option<String>, line: Seq<char>) -> bool {
    match pattern {
        Some(p) => re_is_match(p@, line),
        None => false,
    }
}

/// Whether a record reaches the accumulator: it must carry text, and the
/// pre-rewrite, when one is configured, must not leave that text empty.
pub open spec fn record_survives(pre: Option<(String, String)>, r: RecordModel) -> bool {
    &&& r.line is Some
    &&& (pre is Some ==> apply_rewrite(pre, r.line->0).len() > 0)
}

/// The entry that a surviving record contributes to the accumulator's
/// input: its pre-rewritten line, flagged as a match or not.
pub open spec fn record_entry(
    pre: Option<(String, String)>,
    pattern: Option<String>,
    r: RecordModel,
) -> EntryModel {
    let line = apply_rewrite(pre, r.line->0);
    EntryModel { start: r.start, end: r.end, line, is_match: line_is_match(pattern, line) }
}

/// The stream that the accumulator consumes: every surviving record, in
/// source order, pre-rewritten and flagged.
pub open spec fn processed(
    pre: Option<(String, String)>,
    pattern: Option<String>,
    recs: Seq<RecordModel>,
) -> Seq<EntryModel>
    decreases recs.len(),
{
    if recs.len() == 0 {
        Seq::empty()
    } else {
        let rest = processed(pre, pattern, recs.drop_last());
        if record_survives(pre, recs.last()) {
            rest.push(record_entry(pre, pattern, recs.last()))
        } else {
            rest
        }
    }
}

/// The accumulator's state between two entries.
pub struct AccState {
    /// The buffered before-context candidates, oldest first.
    pub pending: Seq<EntryModel>,
    /// The entries emitted so far, in source order.
    pub out: Seq<EntryModel>,
    /// The stream index of the most recent direct match, if any.
    pub last_match_idx: Option<int>,
    /// The end time of the most recent direct match, if any.
    pub last_match_end: Option<int>,
}

/// The state before any entry has been consumed.
pub open spec fn init_state() -> AccState {
    AccState {
        pending: Seq::empty(),
        out: Seq::empty(),
        last_match_idx: None,
        last_match_end: None,
    }
}

/// The buffered entries that a match starting at `cur_start` flushes in
/// duration mode: those whose gap to the match is strictly below
/// `before` milliseconds.
pub open spec fn kept_before(before: int, cur_start: int, pending: Seq<EntryModel>) -> Seq<EntryModel>
    decreases pending.len(),
{
    if pending.len() == 0 {
        Seq::empty()
    } else {
        let rest = kept_before(before, cur_start, pending.drop_last());
        if cur_start - pending.last().end < before {
            rest.push(pending.last())
        } else {
            rest
        }
    }
}

/// One step of the accumulator on the entry `e` at stream index `i`.
///
/// An entry is kept outright when it is a direct match, or when no
/// pattern is configured at all; then the buffer is flushed before it
/// (whole in entry-count mode, pruned by elapsed time in duration mode)
/// and the match state advances on a direct match. Any other entry is
/// emitted as after-context when it is still within the window of the
/// most recent match, and otherwise buffered as a before-context
/// candidate: in entry-count mode only the most recent `before_context`
/// candidates are retained (none when that bound is zero), in duration
/// mode all of them are.
pub open spec fn acc_step(
    ctx: ContextConfig,
    has_pattern: bool,
    st: AccState,
    i: int,
    e: EntryModel,
) -> AccState {
    if e.is_match || !has_pattern {
        let flushed = match ctx {
            ContextConfig::Lines { .. } => st.pending,
            ContextConfig::Durations { before_duration, .. } => kept_before(
                before_duration as int,
                e.start,
                st.pending,
            ),
        };
        AccState {
            pending: Seq::empty(),
            out: st.out + flushed.push(e),
            last_match_idx: if e.is_match { Some(i) } else { st.last_match_idx },
            last_match_end: if e.is_match { Some(e.end) } else { st.last_match_end },
        }
    } else {
        match ctx {
            ContextConfig::Lines { before_context, after_context } => {
                if st.last_match_idx matches Some(m) && i <= m + after_context {
                    AccState {
                        pending: Seq::empty(),
                        out: st.out.push(e),
                        last_match_idx: st.last_match_idx,
                        last_match_end: st.last_match_end,
                    }
                } else if before_context >= 1 {
                    let trimmed = if st.pending.len() >= before_context {
                        st.pending.drop_first()
                    } else {
                        st.pending
                    };
                    AccState {
                        pending: trimmed.push(e),
                        out: st.out,
                        last_match_idx: st.last_match_idx,
                        last_match_end: st.last_match_end,
                    }
                } else {
                    st
                }
            }
            ContextConfig::Durations { after_duration, .. } => {
                if st.last_match_end matches Some(t) && e.start - t <= after_duration {
                    AccState {
                        pending: Seq::empty(),
                        out: st.out.push(e),
                        last_match_idx: st.last_match_idx,
                        last_match_end: st.last_match_end,
                    }
                } else {
                    AccState {
                        pending: st.pending.push(e),
                        out: st.out,
                        last_match_idx: st.last_match_idx,
                        last_match_end: st.last_match_end,
                    }
                }
            }
        }
    }
}

/// The accumulator's state after consuming `entries` from the initial
/// state, one step per entry in order.
pub open spec fn accumulate(
    ctx: ContextConfig,
    has_pattern: bool,
    entries: Seq<EntryModel>,
) -> AccState
    decreases entries.len(),
{
    if entries.len() == 0 {
        init_state()
    } else {
        acc_step(
            ctx,
            has_pattern,
            accumulate(ctx, has_pattern, entries.drop_last()),
            entries.len() - 1,
            entries.last(),
        )
    }
}

/// The entry as the optional post-rewrite emits it.
pub open spec fn post_rewritten(post: Option<(String, String)>, e: EntryModel) -> EntryModel {
    EntryModel {
        start: e.start,
        end: e.end,
        line: apply_rewrite(post, e.line),
        is_match: e.is_match,
    }
}

/// The post-rewrite applied to a whole emitted sequence.
pub open spec fn post_all(post: Option<(String, String)>, s: Seq<EntryModel>) -> Seq<EntryModel> {
    s.map_values(|e: EntryModel| post_rewritten(post, e))
}

/// Whether the configured match pattern compiles.
pub open spec fn pattern_ok(conf: Config) -> bool {
    conf.pattern matches Some(p) ==> re_compiles(p@)
}

/// Whether the configured pre-replace pattern compiles.
pub open spec fn pre_ok(conf: Config) -> bool {
    conf.pre_replace matches Some(pr) ==> re_compiles(pr.0@)
}

/// Whether the configured post-replace pattern compiles.
pub open spec fn post_ok(conf: Config) -> bool {
    conf.post_replace matches Some(pr) ==> re_compiles(pr.0@)
}

/// Whether every configured pattern of the run compiles.
pub open spec fn config_ok(conf: Config) -> bool {
    pattern_ok(conf) && pre_ok(conf) && post_ok(conf)
}

/// What one whole run of the filter returns: the processed stream, run
/// through the accumulator, with the post-rewrite applied to every
/// emitted entry.
pub open spec fn spec_parse(conf: Config, recs: Seq<RecordModel>) -> Seq<EntryModel> {
    post_all(
        conf.post_replace,
        accumulate(
            conf.context,
            conf.pattern is Some,
            processed(conf.pre_replace, conf.pattern, recs),
        ).out,
    )
}

} // verus!
