//! The executable filter: one forward pass over the records that
//! implements exactly the model in [`crate::machine`].

use vstd::prelude::*;

use crate::machine::{
    acc_step, accumulate, apply_rewrite, config_ok, kept_before, line_is_match, pattern_ok,
    post_all, post_ok, post_rewritten, pre_ok, processed, record_entry, record_survives,
    spec_parse,
};
use crate::model::{
    entries_view, records_view, Config, ContextConfig, Entry, EntryModel, FilterError, Record,
    RecordModel,
};
use crate::rx::Rx;

verus! {

/// Whether `rx` is the compiled form of the optional match pattern.
spec fn rx_for_pattern(rx: Option<Rx>, pattern: Option<String>) -> bool {
    &&& (rx is Some <==> pattern is Some)
    &&& (rx matches Some(r) ==> pattern matches Some(p) && r.pat() == p@)
}

/// Whether `rx` is the compiled form of the pattern of the optional
/// (pattern, replacement) substitution.
spec fn rx_for_rewrite(rx: Option<Rx>, rw: Option<(String, String)>) -> bool {
    &&& (rx is Some <==> rw is Some)
    &&& (rx matches Some(r) ==> rw matches Some(pr) && r.pat() == pr.0@)
}

/// Applies the optional substitution to one line.
fn rewrite_line(rx: &Option<Rx>, rw: &Option<(String, String)>, line: String) -> (r: String)
    requires
        rx_for_rewrite(*rx, *rw),
    ensures
        r@ == apply_rewrite(*rw, line@),
{
    match (rx, rw) {
        (Some(r0), Some(pr)) => r0.replace_all(line.as_str(), pr.1.as_str()),
        _ => line,
    }
}

/// Tests one line against the optional match pattern. With no pattern
/// configured nothing is a direct match.
fn match_line(rx: &Option<Rx>, pattern: &Option<String>, line: &String) -> (r: bool)
    requires
        rx_for_pattern(*rx, *pattern),
    ensures
        r == line_is_match(*pattern, line@),
{
    match rx {
        Some(r0) => r0.is_match(line.as_str()),
        None => false,
    }
}

proof fn lemma_entries_view_push(s: Seq<Entry>, e: Entry)
    ensures
        entries_view(s.push(e)) == entries_view(s).push(e@),
{
    assert(entries_view(s.push(e)) =~= entries_view(s).push(e@));
}

/// Appends one entry to the output, applying the post-rewrite to it.
fn push_output(out: &mut Vec<Entry>, rx: &Option<Rx>, rw: &Option<(String, String)>, e: Entry)
    requires
        rx_for_rewrite(*rx, *rw),
    ensures
        entries_view(final(out)@) == entries_view(old(out)@).push(post_rewritten(*rw, e@)),
{
    let Entry { start_ms, end_ms, line, is_match } = e;
    let line = rewrite_line(rx, rw, line);
    let ghost prev = out@;
    out.push(Entry { start_ms, end_ms, line, is_match });
    proof {
        lemma_entries_view_push(prev, out@.last());
    }
}

/// Unfolds [`processed`] by one record at the end of a prefix.
proof fn lemma_processed_take_step(
    pre: Option<(String, String)>,
    pattern: Option<String>,
    recs: Seq<RecordModel>,
    i: int,
)
    requires
        0 <= i < recs.len(),
    ensures
        processed(pre, pattern, recs.take(i + 1)) == if record_survives(pre, recs[i]) {
            processed(pre, pattern, recs.take(i)).push(record_entry(pre, pattern, recs[i]))
        } else {
            processed(pre, pattern, recs.take(i))
        },
{
    assert(recs.take(i + 1).drop_last() =~= recs.take(i));
    assert(recs.take(i + 1).last() == recs[i]);
}

/// Unfolds [`accumulate`] by one entry at the end of its input.
proof fn lemma_accumulate_push(
    ctx: ContextConfig,
    has_pattern: bool,
    s: Seq<EntryModel>,
    e: EntryModel,
)
    ensures
        accumulate(ctx, has_pattern, s.push(e)) == acc_step(
            ctx,
            has_pattern,
            accumulate(ctx, has_pattern, s),
            s.len() as int,
            e,
        ),
{
    assert(s.push(e).drop_last() =~= s);
    assert(s.push(e).last() == e);
}

/// The processed stream is never longer than its source.
proof fn lemma_processed_len(
    pre: Option<(String, String)>,
    pattern: Option<String>,
    recs: Seq<RecordModel>,
)
    ensures
        processed(pre, pattern, recs).len() <= recs.len(),
    decreases recs.len(),
{
    if recs.len() > 0 {
        lemma_processed_len(pre, pattern, recs.drop_last());
    }
}

/// How the exec loop state corresponds to the model: `i` records are
/// consumed, `j` of them survived, and the buffers and match scalars
/// carry the values of the accumulator state, with the post-rewrite
/// already applied to the emitted entries.
spec fn loop_state_ok(
    conf: Config,
    recs: Seq<RecordModel>,
    i: int,
    pending: Seq<Entry>,
    out: Seq<Entry>,
    lmi: Option<usize>,
    lme: Option<i64>,
    j: int,
) -> bool {
    let ents = processed(conf.pre_replace, conf.pattern, recs.take(i));
    let st = accumulate(conf.context, conf.pattern is Some, ents);
    &&& entries_view(pending) == st.pending
    &&& entries_view(out) == post_all(conf.post_replace, st.out)
    &&& (match (lmi, st.last_match_idx) {
        (Some(a), Some(b)) => a as int == b && b < ents.len(),
        (None, None) => true,
        _ => false,
    })
    &&& (match (lme, st.last_match_end) {
        (Some(a), Some(b)) => a as int == b,
        (None, None) => true,
        _ => false,
    })
    &&& j == ents.len()
}

/// Runs one whole filter pass over `records`.
///
/// The configuration's patterns are compiled first; an invalid one is
/// reported as the matching [`FilterError`], the match pattern checked
/// first, then the pre-replace pattern, then the post-replace pattern.
/// On success the result is exactly what the model says: every record is
/// pre-rewritten and skipped when textless or emptied, the context
/// accumulator keeps the matches and their windows in source order, and
/// the post-rewrite is applied to every emitted entry.
#[verifier::loop_isolation(false)]
pub fn parse(records: Vec<Record>, conf: Config) -> (res: Result<Vec<Entry>, FilterError>)
    ensures
        res is Ok <==> config_ok(conf),
        res == Err::<Vec<Entry>, FilterError>(FilterError::Pattern) <==> !pattern_ok(conf),
        res == Err::<Vec<Entry>, FilterError>(FilterError::PreReplace) <==> (pattern_ok(conf)
            && !pre_ok(conf)),
        res == Err::<Vec<Entry>, FilterError>(FilterError::PostReplace) <==> (pattern_ok(conf)
            && pre_ok(conf) && !post_ok(conf)),
        res matches Ok(out) ==> entries_view(out@) == spec_parse(conf, records_view(records@)),
{
    let matcher: Option<Rx> = match &conf.pattern {
        Some(p) => match Rx::new(p.as_str()) {
            Some(m) => Some(m),
            None => {
                return Err(FilterError::Pattern);
            },
        },
        None => None,
    };
    let pre: Option<Rx> = match &conf.pre_replace {
        Some(pr) => match Rx::new(pr.0.as_str()) {
            Some(m) => Some(m),
            None => {
                return Err(FilterError::PreReplace);
            },
        },
        None => None,
    };
    let post: Option<Rx> = match &conf.post_replace {
        Some(pr) => match Rx::new(pr.0.as_str()) {
            Some(m) => Some(m),
            None => {
                return Err(FilterError::PostReplace);
            },
        },
        None => None,
    };

    let ghost recs = records_view(records@);

    let mut out: Vec<Entry> = Vec::new();
    let mut pending: Vec<Entry> = Vec::new();
    let mut last_match_idx: Option<usize> = None;
    let mut last_match_end: Option<i64> = None;
    let mut j: usize = 0;
    let mut i: usize = 0;

    proof {
        assert(recs.take(0) =~= Seq::<RecordModel>::empty());
        assert(entries_view(out@) =~= Seq::<EntryModel>::empty());
        assert(entries_view(pending@) =~= Seq::<EntryModel>::empty());
        assert(post_all(conf.post_replace, Seq::<EntryModel>::empty())
            =~= Seq::<EntryModel>::empty());
    }

    while i < records.len()
        invariant
            i <= records.len(),
            j <= i,
            recs == records_view(records@),
            recs.len() == records@.len(),
            rx_for_pattern(matcher, conf.pattern),
            rx_for_rewrite(pre, conf.pre_replace),
            rx_for_rewrite(post, conf.post_replace),
            loop_state_ok(
                conf,
                recs,
                i as int,
                pending@,
                out@,
                last_match_idx,
                last_match_end,
                j as int,
            ),
        decreases records.len() - i,
    {
        let ghost prev_ents = processed(conf.pre_replace, conf.pattern, recs.take(i as int));
        let ghost prev_st = accumulate(conf.context, conf.pattern is Some, prev_ents);
        proof {
            lemma_processed_take_step(conf.pre_replace, conf.pattern, recs, i as int);
            assert(recs[i as int] == records@[i as int]@);
        }

        let rec = &records[i];
        match &rec.line {
            None => {},
            Some(l) => {
                let line = rewrite_line(&pre, &conf.pre_replace, l.clone());
                if conf.pre_replace.is_some() && line.as_str().is_empty() {
                    // the pre-rewrite emptied the line: the record is
                    // dropped as if the source never produced it
                } else {
                    let is_m = match_line(&matcher, &conf.pattern, &line);
                    let cur = Entry {
                        start_ms: rec.start_ms,
                        end_ms: rec.end_ms,
                        line,
                        is_match: is_m,
                    };
                    let ghost cur_v = cur@;
                    proof {
                        assert(record_survives(conf.pre_replace, recs[i as int]));
                        assert(cur_v == record_entry(conf.pre_replace, conf.pattern, recs[i as int]));
                        lemma_accumulate_push(conf.context, conf.pattern is Some, prev_ents, cur_v);
                        lemma_processed_len(conf.pre_replace, conf.pattern, recs.take(i as int));
                    }
                    let cur_start = cur.start_ms;
                    let cur_end = cur.end_ms;

                    if is_m || matcher.is_none() {
                        // a kept entry: flush the buffered before-context
                        // ahead of it, whole in entry-count mode, pruned
                        // by elapsed time in duration mode
                        match &conf.context {
                            ContextConfig::Lines { .. } => {
                                proof {
                                    assert(prev_st.out + prev_st.pending.take(0) =~= prev_st.out);
                                }
                                let mut k: usize = 0;
                                while k < pending.len()
                                    invariant
                                        k <= pending.len(),
                                        rx_for_rewrite(post, conf.post_replace),
                                        entries_view(pending@) == prev_st.pending,
                                        entries_view(out@) == post_all(
                                            conf.post_replace,
                                            prev_st.out + prev_st.pending.take(k as int),
                                        ),
                                    decreases pending.len() - k,
                                {
                                    let e = pending[k].clone();
                                    proof {
                                        assert(entries_view(pending@)[k as int]
                                            == pending@[k as int]@);
                                        assert(e@ == prev_st.pending[k as int]);
                                    }
                                    push_output(&mut out, &post, &conf.post_replace, e);
                                    proof {
                                        assert((prev_st.out + prev_st.pending.take(k as int)).push(
                                            prev_st.pending[k as int],
                                        ) =~= prev_st.out + prev_st.pending.take(k as int + 1));
                                        assert(post_all(
                                            conf.post_replace,
                                            (prev_st.out + prev_st.pending.take(k as int)).push(
                                                prev_st.pending[k as int],
                                            ),
                                        ) =~= post_all(
                                            conf.post_replace,
                                            prev_st.out + prev_st.pending.take(k as int),
                                        ).push(
                                            post_rewritten(
                                                conf.post_replace,
                                                prev_st.pending[k as int],
                                            ),
                                        ));
                                    }
                                    k += 1;
                                }
                                proof {
                                    assert(prev_st.pending.take(pending@.len() as int)
                                        =~= prev_st.pending);
                                }
                            },
                            ContextConfig::Durations { before_duration, .. } => {
                                let before: i64 = *before_duration;
                                proof {
                                    assert(prev_st.pending.take(0)
                                        =~= Seq::<EntryModel>::empty());
                                    assert(prev_st.out + kept_before(
                                        before as int,
                                        cur_v.start,
                                        prev_st.pending.take(0),
                                    ) =~= prev_st.out);
                                }
                                let mut k: usize = 0;
                                while k < pending.len()
                                    invariant
                                        k <= pending.len(),
                                        rx_for_rewrite(post, conf.post_replace),
                                        entries_view(pending@) == prev_st.pending,
                                        entries_view(out@) == post_all(
                                            conf.post_replace,
                                            prev_st.out + kept_before(
                                                before as int,
                                                cur_v.start,
                                                prev_st.pending.take(k as int),
                                            ),
                                        ),
                                    decreases pending.len() - k,
                                {
                                    let ghost kept_k = kept_before(
                                        before as int,
                                        cur_v.start,
                                        prev_st.pending.take(k as int),
                                    );
                                    proof {
                                        assert(prev_st.pending.take(k as int + 1).drop_last()
                                            =~= prev_st.pending.take(k as int));
                                        assert(prev_st.pending.take(k as int + 1).last()
                                            == prev_st.pending[k as int]);
                                    }
                                    let e = pending[k].clone();
                                    proof {
                                        assert(entries_view(pending@)[k as int]
                                            == pending@[k as int]@);
                                        assert(e@ == prev_st.pending[k as int]);
                                    }
                                    let gap: i128 = (cur_start as i128) - (e.end_ms as i128);
                                    if gap < before as i128 {
                                        push_output(&mut out, &post, &conf.post_replace, e);
                                        proof {
                                            assert((prev_st.out + kept_k).push(
                                                prev_st.pending[k as int],
                                            ) =~= prev_st.out + kept_k.push(
                                                prev_st.pending[k as int],
                                            ));
                                            assert(post_all(
                                                conf.post_replace,
                                                (prev_st.out + kept_k).push(
                                                    prev_st.pending[k as int],
                                                ),
                                            ) =~= post_all(
                                                conf.post_replace,
                                                prev_st.out + kept_k,
                                            ).push(
                                                post_rewritten(
                                                    conf.post_replace,
                                                    prev_st.pending[k as int],
                                                ),
                                            ));
                                        }
                                    }
                                    k += 1;
                                }
                                proof {
                                    assert(prev_st.pending.take(pending@.len() as int)
                                        =~= prev_st.pending);
                                }
                            },
                        }
                        pending.clear();
                        proof {
                            assert(entries_view(pending@)
                                =~= Seq::<EntryModel>::empty());
                        }
                        push_output(&mut out, &post, &conf.post_replace, cur);
                        proof {
                            let flushed = match conf.context {
                                ContextConfig::Lines { .. } => prev_st.pending,
                                ContextConfig::Durations { before_duration, .. } => kept_before(
                                    before_duration as int,
                                    cur_v.start,
                                    prev_st.pending,
                                ),
                            };
                            assert((prev_st.out + flushed).push(cur_v) =~= prev_st.out
                                + flushed.push(cur_v));
                            assert(post_all(
                                conf.post_replace,
                                (prev_st.out + flushed).push(cur_v),
                            ) =~= post_all(conf.post_replace, prev_st.out + flushed).push(
                                post_rewritten(conf.post_replace, cur_v),
                            ));
                        }
                        if is_m {
                            last_match_idx = Some(j);
                            last_match_end = Some(cur_end);
                        }
                    } else {
                        match &conf.context {
                            ContextConfig::Lines { before_context, after_context } => {
                                let within_after = match last_match_idx {
                                    Some(m) => j - m <= (*after_context) as usize,
                                    None => false,
                                };
                                if within_after {
                                    pending.clear();
                                    proof {
                                        assert(entries_view(pending@)
                                            =~= Seq::<EntryModel>::empty());
                                    }
                                    push_output(&mut out, &post, &conf.post_replace, cur);
                                    proof {
                                        assert(post_all(
                                            conf.post_replace,
                                            prev_st.out.push(cur_v),
                                        ) =~= post_all(conf.post_replace, prev_st.out).push(
                                            post_rewritten(conf.post_replace, cur_v),
                                        ));
                                    }
                                } else if *before_context >= 1 {
                                    if pending.len() >= (*before_context) as usize {
                                        let ghost pend0 = pending@;
                                        pending.remove(0);
                                        proof {
                                            assert(entries_view(pend0.remove(0))
                                                =~= entries_view(pend0).drop_first());
                                        }
                                    }
                                    let ghost pend1 = pending@;
                                    pending.push(cur);
                                    proof {
                                        lemma_entries_view_push(pend1, pending@.last());
                                    }
                                }
                                // with no before-context configured and
                                // outside the after-window, the entry is
                                // discarded
                            },
                            ContextConfig::Durations { after_duration, .. } => {
                                let within_after = match last_match_end {
                                    Some(t) => (cur_start as i128) - (t as i128)
                                        <= (*after_duration as i128),
                                    None => false,
                                };
                                if within_after {
                                    pending.clear();
                                    proof {
                                        assert(entries_view(pending@)
                                            =~= Seq::<EntryModel>::empty());
                                    }
                                    push_output(&mut out, &post, &conf.post_replace, cur);
                                    proof {
                                        assert(post_all(
                                            conf.post_replace,
                                            prev_st.out.push(cur_v),
                                        ) =~= post_all(conf.post_replace, prev_st.out).push(
                                            post_rewritten(conf.post_replace, cur_v),
                                        ));
                                    }
                                } else {
                                    let ghost pend1 = pending@;
                                    pending.push(cur);
                                    proof {
                                        lemma_entries_view_push(pend1, pending@.last());
                                    }
                                }
                            },
                        }
                    }
                    j += 1;
                }
            },
        }
        i += 1;
    }
    proof {
        assert(recs.take(records@.len() as int) =~= recs);
    }
    Ok(out)
}

} // verus!
