//! The guarantees of the filter as a whole, proved against the model in
//! [`crate::machine`].

use vstd::prelude::*;

use crate::machine::{
    acc_step, accumulate, apply_rewrite, kept_before, line_is_match, post_all,
    post_rewritten, processed, record_entry, record_survives, spec_parse,
};
use crate::model::{Config, ContextConfig, EntryModel, RecordModel};

verus! {

/// Every entry of the processed stream carries the match flag that the
/// configured pattern gives its line.
proof fn lemma_processed_flags(
    pre: Option<(String, String)>,
    pattern: Option<String>,
    recs: Seq<RecordModel>,
)
    ensures
        forall|k: int|
            0 <= k < processed(pre, pattern, recs).len() ==> #[trigger] processed(
                pre,
                pattern,
                recs,
            )[k].is_match == line_is_match(pattern, processed(pre, pattern, recs)[k].line),
    decreases recs.len(),
{
    if recs.len() > 0 {
        lemma_processed_flags(pre, pattern, recs.drop_last());
        let rest = processed(pre, pattern, recs.drop_last());
        let whole = processed(pre, pattern, recs);
        if record_survives(pre, recs.last()) {
            let e = record_entry(pre, pattern, recs.last());
            assert forall|k: int| 0 <= k < whole.len() implies #[trigger] whole[k].is_match
                == line_is_match(pattern, whole[k].line) by {
                if k < rest.len() {
                    assert(whole[k] == rest[k]);
                } else {
                    assert(whole[k] == e);
                }
            }
        }
    }
}

/// When no entry of the stream is a direct match and no pattern is
/// configured, the accumulator emits every entry, in order, buffers
/// nothing, and never records a match.
proof fn lemma_accumulate_no_pattern(ctx: ContextConfig, entries: Seq<EntryModel>)
    requires
        forall|k: int| 0 <= k < entries.len() ==> !(#[trigger] entries[k].is_match),
    ensures
        accumulate(ctx, false, entries).out == entries,
        accumulate(ctx, false, entries).pending == Seq::<EntryModel>::empty(),
    decreases entries.len(),
{
    if entries.len() == 0 {
    } else {
        lemma_accumulate_no_pattern(ctx, entries.drop_last());
        let st = accumulate(ctx, false, entries.drop_last());
        assert(st.out + st.pending.push(entries.last()) =~= entries);
        assert(st.out + kept_before(
            match ctx {
                ContextConfig::Durations { before_duration, .. } => before_duration as int,
                _ => 0,
            },
            entries.last().start,
            st.pending,
        ).push(entries.last()) =~= entries);
    }
}

/// With no pattern configured the filter passes everything through:
/// the output is exactly the processed stream — every record that has
/// text and that the pre-rewrite does not empty, in source order, with
/// the rewrites applied — and no entry is flagged as a match.
pub proof fn lemma_no_pattern_pass_through(conf: Config, recs: Seq<RecordModel>)
    requires
        conf.pattern is None,
    ensures
        spec_parse(conf, recs) == post_all(
            conf.post_replace,
            processed(conf.pre_replace, conf.pattern, recs),
        ),
        forall|k: int|
            0 <= k < spec_parse(conf, recs).len() ==> !(#[trigger] spec_parse(
                conf,
                recs,
            )[k].is_match),
{
    let ents = processed(conf.pre_replace, conf.pattern, recs);
    lemma_processed_flags(conf.pre_replace, conf.pattern, recs);
    lemma_accumulate_no_pattern(conf.context, ents);
}

/// The sequence that results from rewriting every record that has text
/// with the post-replace substitution, directly, with no windowing.
pub open spec fn direct_rewrite(
    post: Option<(String, String)>,
    recs: Seq<RecordModel>,
) -> Seq<EntryModel>
    decreases recs.len(),
{
    if recs.len() == 0 {
        Seq::empty()
    } else {
        let rest = direct_rewrite(post, recs.drop_last());
        match recs.last().line {
            Some(l) => rest.push(
                EntryModel {
                    start: recs.last().start,
                    end: recs.last().end,
                    line: apply_rewrite(post, l),
                    is_match: false,
                },
            ),
            None => rest,
        }
    }
}

/// A run configured with only a post-replace — no pattern and no
/// pre-replace — is the same as applying that rewrite to every input
/// record directly.
pub proof fn lemma_rewrite_only_run(conf: Config, recs: Seq<RecordModel>)
    requires
        conf.pattern is None,
        conf.pre_replace is None,
    ensures
        spec_parse(conf, recs) == direct_rewrite(conf.post_replace, recs),
{
    lemma_no_pattern_pass_through(conf, recs);
    lemma_post_all_processed_direct(conf.post_replace, recs);
}

/// With no pattern and no pre-replace, post-rewriting the processed
/// stream is the direct rewrite of the records.
proof fn lemma_post_all_processed_direct(post: Option<(String, String)>, recs: Seq<RecordModel>)
    ensures
        post_all(post, processed(None, None, recs)) == direct_rewrite(post, recs),
    decreases recs.len(),
{
    if recs.len() == 0 {
        assert(post_all(post, processed(None, None, recs)) =~= direct_rewrite(post, recs));
    } else {
        lemma_post_all_processed_direct(post, recs.drop_last());
        let rest = processed(None, None, recs.drop_last());
        if recs.last().line is Some {
            let e = record_entry(None, None, recs.last());
            assert(post_all(post, rest.push(e)) =~= post_all(post, rest).push(
                post_rewritten(post, e),
            ));
        }
    }
}

/// When a pattern is configured and no entry of the stream matches it,
/// the accumulator emits nothing and never records a match: entries
/// buffered as before-context die with the buffer.
proof fn lemma_accumulate_no_match(ctx: ContextConfig, entries: Seq<EntryModel>)
    requires
        forall|k: int| 0 <= k < entries.len() ==> !(#[trigger] entries[k].is_match),
    ensures
        accumulate(ctx, true, entries).out == Seq::<EntryModel>::empty(),
        accumulate(ctx, true, entries).last_match_idx is None,
        accumulate(ctx, true, entries).last_match_end is None,
    decreases entries.len(),
{
    if entries.len() > 0 {
        lemma_accumulate_no_match(ctx, entries.drop_last());
    }
}

/// With a pattern that no record of the run matches, the output is
/// empty: everything that was ever buffered as before-context is
/// dropped, never emitted.
pub proof fn lemma_trailing_buffer_dropped(conf: Config, recs: Seq<RecordModel>)
    requires
        conf.pattern is Some,
        forall|k: int|
            0 <= k < processed(conf.pre_replace, conf.pattern, recs).len() ==> !(
            #[trigger] processed(conf.pre_replace, conf.pattern, recs)[k].is_match),
    ensures
        spec_parse(conf, recs) == Seq::<EntryModel>::empty(),
{
    lemma_accumulate_no_match(conf.context, processed(conf.pre_replace, conf.pattern, recs));
    assert(spec_parse(conf, recs) =~= Seq::<EntryModel>::empty());
}

/// Dropping a record that does not survive the pre-rewrite leaves the
/// processed stream unchanged.
proof fn lemma_processed_skip(
    pre: Option<(String, String)>,
    pattern: Option<String>,
    recs: Seq<RecordModel>,
    k: int,
)
    requires
        0 <= k < recs.len(),
        !record_survives(pre, recs[k]),
    ensures
        processed(pre, pattern, recs) == processed(pre, pattern, recs.remove(k)),
    decreases recs.len(),
{
    if k == recs.len() - 1 {
        assert(recs.remove(k) =~= recs.drop_last());
    } else {
        assert(recs.remove(k).drop_last() =~= recs.drop_last().remove(k));
        assert(recs.remove(k).last() == recs.last());
        assert(recs.drop_last()[k] == recs[k]);
        lemma_processed_skip(pre, pattern, recs.drop_last(), k);
    }
}

/// A record whose text the pre-rewrite leaves empty plays no part in
/// the run: the output is the same as if the source had never produced
/// that record at all.
pub proof fn lemma_pre_rewrite_emptied_record_dropped(
    conf: Config,
    recs: Seq<RecordModel>,
    k: int,
)
    requires
        0 <= k < recs.len(),
        conf.pre_replace is Some,
        recs[k].line matches Some(l) ==> apply_rewrite(conf.pre_replace, l).len() == 0,
    ensures
        spec_parse(conf, recs) == spec_parse(conf, recs.remove(k)),
{
    lemma_processed_skip(conf.pre_replace, conf.pattern, recs, k);
}

/// Whether `out` is the subsequence of `src` selected by the strictly
/// increasing index sequence `idx`: same elements, same order, no
/// duplication.
pub open spec fn selected_by(out: Seq<EntryModel>, src: Seq<EntryModel>, idx: Seq<int>) -> bool {
    &&& idx.len() == out.len()
    &&& (forall|a: int| 0 <= a < idx.len() ==> 0 <= #[trigger] idx[a] < src.len())
    &&& (forall|a: int, b: int| 0 <= a < b < idx.len() ==> #[trigger] idx[a] < #[trigger] idx[b])
    &&& (forall|a: int| 0 <= a < idx.len() ==> out[a] == src[#[trigger] idx[a]])
}

/// Whether every index of `ix` lies strictly below every index of `iy`.
pub open spec fn all_before(ix: Seq<int>, iy: Seq<int>) -> bool {
    forall|a: int, b: int|
        0 <= a < ix.len() && 0 <= b < iy.len() ==> #[trigger] ix[a] < #[trigger] iy[b]
}

/// A selection into `src` is still a selection after `src` grows at
/// the end.
proof fn lemma_selected_by_extend(
    x: Seq<EntryModel>,
    src: Seq<EntryModel>,
    e: EntryModel,
    ix: Seq<int>,
)
    requires
        selected_by(x, src, ix),
    ensures
        selected_by(x, src.push(e), ix),
{
    assert forall|a: int| 0 <= a < ix.len() implies x[a] == src.push(e)[#[trigger] ix[a]] by {
        assert(src.push(e)[ix[a]] == src[ix[a]]);
    }
}

/// Two selections whose index ranges do not interleave concatenate to
/// one selection.
proof fn lemma_selected_by_concat(
    x: Seq<EntryModel>,
    y: Seq<EntryModel>,
    src: Seq<EntryModel>,
    ix: Seq<int>,
    iy: Seq<int>,
)
    requires
        selected_by(x, src, ix),
        selected_by(y, src, iy),
        all_before(ix, iy),
    ensures
        selected_by(x + y, src, ix + iy),
{
    let z = x + y;
    let iz = ix + iy;
    assert forall|a: int| 0 <= a < iz.len() implies 0 <= #[trigger] iz[a] < src.len() by {
        if a < ix.len() {
            assert(iz[a] == ix[a]);
        } else {
            assert(iz[a] == iy[a - ix.len()]);
        }
    }
    assert forall|a: int, b: int| 0 <= a < b < iz.len() implies #[trigger] iz[a]
        < #[trigger] iz[b] by {
        if b < ix.len() {
            assert(iz[a] == ix[a] && iz[b] == ix[b]);
        } else if a >= ix.len() {
            assert(iz[a] == iy[a - ix.len()] && iz[b] == iy[b - ix.len()]);
        } else {
            assert(iz[a] == ix[a] && iz[b] == iy[b - ix.len()]);
        }
    }
    assert forall|a: int| 0 <= a < iz.len() implies z[a] == src[#[trigger] iz[a]] by {
        if a < ix.len() {
            assert(z[a] == x[a] && iz[a] == ix[a]);
        } else {
            assert(z[a] == y[a - ix.len()] && iz[a] == iy[a - ix.len()]);
        }
    }
}

/// One element of `src` is a selection of length one.
proof fn lemma_selected_by_single(src: Seq<EntryModel>, n: int)
    requires
        0 <= n < src.len(),
    ensures
        selected_by(seq![src[n]], src, seq![n]),
{
}

/// A selection of a selection is a selection, through the composed
/// indices.
proof fn lemma_selected_by_compose(
    x: Seq<EntryModel>,
    y: Seq<EntryModel>,
    src: Seq<EntryModel>,
    ixy: Seq<int>,
    iys: Seq<int>,
) -> (iz: Seq<int>)
    requires
        selected_by(x, y, ixy),
        selected_by(y, src, iys),
    ensures
        selected_by(x, src, iz),
        iz.len() == ixy.len(),
        forall|a: int|
            0 <= a < iz.len() ==> 0 <= ixy[a] < iys.len() && #[trigger] iz[a] == iys[ixy[a]],
{
    let iz = Seq::new(ixy.len(), |a: int| iys[ixy[a]]);
    assert forall|a: int, b: int| 0 <= a < b < iz.len() implies #[trigger] iz[a]
        < #[trigger] iz[b] by {
        assert(ixy[a] < ixy[b]);
    }
    assert forall|a: int| 0 <= a < iz.len() implies x[a] == src[#[trigger] iz[a]] by {
        assert(x[a] == y[ixy[a]]);
    }
    iz
}

/// Dropping the first element of a selection leaves a selection.
proof fn lemma_selected_by_drop_first(x: Seq<EntryModel>, src: Seq<EntryModel>, ix: Seq<int>)
    requires
        selected_by(x, src, ix),
        x.len() > 0,
    ensures
        selected_by(x.drop_first(), src, ix.drop_first()),
{
    assert forall|a: int| 0 <= a < ix.drop_first().len() implies x.drop_first()[a] == src[
        #[trigger] ix.drop_first()[a]
    ] by {
        assert(x.drop_first()[a] == x[a + 1]);
        assert(ix.drop_first()[a] == ix[a + 1]);
    }
}

/// What duration mode flushes out of the buffer is a subsequence of
/// the buffer.
proof fn lemma_kept_before_selected(before: int, cs: int, pending: Seq<EntryModel>) -> (iq: Seq<
    int,
>)
    ensures
        selected_by(kept_before(before, cs, pending), pending, iq),
    decreases pending.len(),
{
    if pending.len() == 0 {
        Seq::<int>::empty()
    } else {
        let prefix = pending.drop_last();
        let last = pending.last();
        let n = prefix.len() as int;
        let kept = kept_before(before, cs, prefix);
        let iq0 = lemma_kept_before_selected(before, cs, prefix);
        assert(prefix.push(last) =~= pending);
        lemma_selected_by_extend(kept, prefix, last, iq0);
        if cs - last.end < before {
            lemma_selected_by_single(pending, n);
            lemma_selected_by_concat(kept, seq![last], pending, iq0, seq![n]);
            assert(kept.push(last) =~= kept + seq![last]);
            assert(iq0.push(n) =~= iq0 + seq![n]);
            iq0.push(n)
        } else {
            iq0
        }
    }
}

/// The post-rewrite keeps a selection a selection, index for index.
proof fn lemma_selected_by_post(
    post: Option<(String, String)>,
    x: Seq<EntryModel>,
    src: Seq<EntryModel>,
    ix: Seq<int>,
)
    requires
        selected_by(x, src, ix),
    ensures
        selected_by(post_all(post, x), post_all(post, src), ix),
{
    assert forall|a: int| 0 <= a < ix.len() implies post_all(post, x)[a] == post_all(post, src)[
        #[trigger] ix[a]
    ] by {
        assert(post_all(post, x)[a] == post_rewritten(post, x[a]));
        assert(post_all(post, src)[ix[a]] == post_rewritten(post, src[ix[a]]));
    }
}

/// At every step of the accumulator, both the emitted entries and the
/// buffered before-context are subsequences of the consumed stream,
/// and everything buffered lies after everything emitted.
proof fn lemma_accumulate_selected(ctx: ContextConfig, hp: bool, entries: Seq<EntryModel>) -> (r: (
    Seq<int>,
    Seq<int>,
))
    ensures
        selected_by(accumulate(ctx, hp, entries).out, entries, r.0),
        selected_by(accumulate(ctx, hp, entries).pending, entries, r.1),
        all_before(r.0, r.1),
    decreases entries.len(),
{
    if entries.len() == 0 {
        (Seq::<int>::empty(), Seq::<int>::empty())
    } else {
        let prefix = entries.drop_last();
        let e = entries.last();
        let n = prefix.len() as int;
        let st = accumulate(ctx, hp, prefix);
        let stepped = accumulate(ctx, hp, entries);
        let r0 = lemma_accumulate_selected(ctx, hp, prefix);
        let io0 = r0.0;
        let ip0 = r0.1;
        assert(prefix.push(e) =~= entries);
        lemma_selected_by_extend(st.out, prefix, e, io0);
        lemma_selected_by_extend(st.pending, prefix, e, ip0);
        lemma_selected_by_single(entries, n);
        if e.is_match || !hp {
            let (flushed, ik): (Seq<EntryModel>, Seq<int>) = match ctx {
                ContextConfig::Lines { .. } => (st.pending, ip0),
                ContextConfig::Durations { before_duration, .. } => {
                    let kept = kept_before(before_duration as int, e.start, st.pending);
                    let iq = lemma_kept_before_selected(before_duration as int, e.start, st.pending);
                    let ik = lemma_selected_by_compose(kept, st.pending, entries, iq, ip0);
                    (kept, ik)
                },
            };
            assert(all_before(io0, ik));
            assert forall|b: int| 0 <= b < ik.len() implies #[trigger] ik[b] < n by {}
            lemma_selected_by_concat(st.out, flushed, entries, io0, ik);
            assert(all_before(io0 + ik, seq![n]));
            lemma_selected_by_concat(st.out + flushed, seq![e], entries, io0 + ik, seq![n]);
            assert(st.out + flushed.push(e) =~= (st.out + flushed) + seq![e]);
            assert(stepped.out == st.out + flushed.push(e));
            ((io0 + ik) + seq![n], Seq::<int>::empty())
        } else {
            match ctx {
                ContextConfig::Lines { before_context, after_context } => {
                    if st.last_match_idx matches Some(m) && n <= m + after_context {
                        lemma_selected_by_concat(st.out, seq![e], entries, io0, seq![n]);
                        assert(st.out.push(e) =~= st.out + seq![e]);
                        (io0 + seq![n], Seq::<int>::empty())
                    } else if before_context >= 1 {
                        let (trimmed, it): (Seq<EntryModel>, Seq<int>) = if st.pending.len()
                            >= before_context {
                            lemma_selected_by_drop_first(st.pending, entries, ip0);
                            (st.pending.drop_first(), ip0.drop_first())
                        } else {
                            (st.pending, ip0)
                        };
                        lemma_selected_by_concat(trimmed, seq![e], entries, it, seq![n]);
                        assert(trimmed.push(e) =~= trimmed + seq![e]);
                        assert(all_before(io0, it + seq![n]));
                        (io0, it + seq![n])
                    } else {
                        (io0, ip0)
                    }
                },
                ContextConfig::Durations { after_duration, .. } => {
                    if st.last_match_end matches Some(t) && e.start - t <= after_duration {
                        lemma_selected_by_concat(st.out, seq![e], entries, io0, seq![n]);
                        assert(st.out.push(e) =~= st.out + seq![e]);
                        (io0 + seq![n], Seq::<int>::empty())
                    } else {
                        lemma_selected_by_concat(st.pending, seq![e], entries, ip0, seq![n]);
                        assert(st.pending.push(e) =~= st.pending + seq![e]);
                        assert(all_before(io0, ip0 + seq![n]));
                        (io0, ip0 + seq![n])
                    }
                },
            }
        }
    }
}

/// Order preservation: the output of a run is a subsequence of its
/// processed input stream — the records that reach the accumulator,
/// post-rewritten — in original order, with no reordering and no
/// duplication.
pub proof fn lemma_order_preserved(conf: Config, recs: Seq<RecordModel>)
    ensures
        exists|idx: Seq<int>|
            selected_by(
                spec_parse(conf, recs),
                post_all(
                    conf.post_replace,
                    processed(conf.pre_replace, conf.pattern, recs),
                ),
                idx,
            ),
{
    let ents = processed(conf.pre_replace, conf.pattern, recs);
    let st = accumulate(conf.context, conf.pattern is Some, ents);
    let r = lemma_accumulate_selected(conf.context, conf.pattern is Some, ents);
    lemma_selected_by_post(conf.post_replace, st.out, ents, r.0);
    assert(selected_by(
        spec_parse(conf, recs),
        post_all(conf.post_replace, ents),
        r.0,
    ));
}

/// The accumulator's state while consuming a stream whose only direct
/// match stands at index `k`, in entry-count mode: before the match is
/// consumed nothing is emitted and the buffer slides over the last
/// `bc` entries; once the match is consumed the emitted entries are
/// exactly the window around `k`, clipped to what the after-context
/// has reached so far.
proof fn lemma_single_match_state(bc: u32, ac: u32, entries: Seq<EntryModel>, k: int, i: int)
    requires
        0 <= k < entries.len(),
        forall|j: int| 0 <= j < entries.len() ==> ((#[trigger] entries[j].is_match) <==> j == k),
        0 <= i <= entries.len(),
    ensures
        ({
            let ctx = ContextConfig::Lines { before_context: bc, after_context: ac };
            let st = accumulate(ctx, true, entries.take(i));
            let low = if k - bc >= 0 { k - bc } else { 0 };
            if i <= k {
                &&& st.out == Seq::<EntryModel>::empty()
                &&& st.last_match_idx is None
                &&& st.pending == (if bc >= 1 {
                    entries.subrange(if i - bc >= 0 { i - bc } else { 0 }, i)
                } else {
                    Seq::<EntryModel>::empty()
                })
            } else {
                &&& st.out == entries.subrange(
                    low,
                    if i <= k + ac + 1 { i } else { k + ac + 1 },
                )
                &&& st.last_match_idx == Some(k)
            }
        }),
    decreases i,
{
    let ctx = ContextConfig::Lines { before_context: bc, after_context: ac };
    let low = if k - bc >= 0 { k - bc } else { 0 };
    if i == 0 {
        assert(entries.take(0) =~= Seq::<EntryModel>::empty());
    } else {
        lemma_single_match_state(bc, ac, entries, k, i - 1);
        let st = accumulate(ctx, true, entries.take(i - 1));
        let e = entries[i - 1];
        assert(entries.take(i).drop_last() =~= entries.take(i - 1));
        assert(entries.take(i).last() == e);
        assert(entries.take(i).len() == i);
        let stepped = accumulate(ctx, true, entries.take(i));
        assert(stepped == acc_step(ctx, true, st, i - 1, e));
        if i - 1 < k {
            assert(!e.is_match);
            if bc >= 1 {
                let plow = if i - 1 - bc >= 0 { i - 1 - bc } else { 0 };
                if st.pending.len() >= bc {
                    assert(st.pending.drop_first().push(e) =~= entries.subrange(
                        if i - bc >= 0 { i - bc } else { 0 },
                        i,
                    ));
                } else {
                    assert(st.pending.push(e) =~= entries.subrange(
                        if i - bc >= 0 { i - bc } else { 0 },
                        i,
                    ));
                }
            }
        } else if i - 1 == k {
            assert(e.is_match);
            if bc >= 1 {
                assert(st.out + st.pending.push(e) =~= entries.subrange(low, k + 1));
            } else {
                assert(st.out + st.pending.push(e) =~= entries.subrange(low, k + 1));
            }
            assert(stepped.out == entries.subrange(
                low,
                if i <= k + ac + 1 { i } else { k + ac + 1 },
            ));
        } else {
            assert(!e.is_match);
            if i - 1 <= k + ac {
                assert(st.out.push(e) =~= entries.subrange(low, i));
            }
        }
    }
}

/// Entry-count window correctness: in a stream whose only direct match
/// stands at index `k`, entry-count mode emits exactly the entries at
/// the indices from `k - before_context` through `k + after_context`,
/// clipped to the stream, in order.
pub proof fn lemma_entry_count_window(bc: u32, ac: u32, entries: Seq<EntryModel>, k: int)
    requires
        0 <= k < entries.len(),
        forall|j: int| 0 <= j < entries.len() ==> ((#[trigger] entries[j].is_match) <==> j == k),
    ensures
        accumulate(
            ContextConfig::Lines { before_context: bc, after_context: ac },
            true,
            entries,
        ).out == entries.subrange(
            if k - bc >= 0 { k - bc } else { 0 },
            if k + ac + 1 <= entries.len() { k + ac + 1 } else { entries.len() as int },
        ),
{
    lemma_single_match_state(bc, ac, entries, k, entries.len() as int);
    assert(entries.take(entries.len() as int) =~= entries);
}


/// The accumulator's state while consuming a stream whose only direct
/// matches stand at `k1` and `k2`, in entry-count mode, with the two
/// windows overlapping: after both matches are consumed the emitted
/// entries form one contiguous block.
proof fn lemma_double_match_state(
    bc: u32,
    ac: u32,
    entries: Seq<EntryModel>,
    k1: int,
    k2: int,
    i: int,
)
    requires
        0 <= k1 < k2 < entries.len(),
        forall|j: int| 0 <= j < entries.len() ==> ((#[trigger] entries[j].is_match) <==> (j == k1 || j == k2)),
        k2 - bc <= k1 + ac + 1,
        0 <= i <= entries.len(),
    ensures
        ({
            let ctx = ContextConfig::Lines { before_context: bc, after_context: ac };
            let st = accumulate(ctx, true, entries.take(i));
            let low = if k1 - bc >= 0 { k1 - bc } else { 0 };
            if i <= k1 {
                &&& st.out == Seq::<EntryModel>::empty()
                &&& st.last_match_idx is None
                &&& st.pending == (if bc >= 1 {
                    entries.subrange(if i - bc >= 0 { i - bc } else { 0 }, i)
                } else {
                    Seq::<EntryModel>::empty()
                })
            } else if i <= k2 {
                &&& st.out == entries.subrange(
                    low,
                    if i <= k1 + ac + 1 { i } else { k1 + ac + 1 },
                )
                &&& st.last_match_idx == Some(k1)
                &&& st.pending == (if i <= k1 + ac + 1 || bc == 0 {
                    Seq::<EntryModel>::empty()
                } else {
                    entries.subrange(if i - bc >= k1 + ac + 1 { i - bc } else { k1 + ac + 1 }, i)
                })
            } else {
                &&& st.out == entries.subrange(
                    low,
                    if i <= k2 + ac + 1 { i } else { k2 + ac + 1 },
                )
                &&& st.last_match_idx == Some(k2)
            }
        }),
    decreases i,
{
    let ctx = ContextConfig::Lines { before_context: bc, after_context: ac };
    let low = if k1 - bc >= 0 { k1 - bc } else { 0 };
    if i == 0 {
        assert(entries.take(0) =~= Seq::<EntryModel>::empty());
    } else {
        lemma_double_match_state(bc, ac, entries, k1, k2, i - 1);
        let st = accumulate(ctx, true, entries.take(i - 1));
        let e = entries[i - 1];
        assert(entries.take(i).drop_last() =~= entries.take(i - 1));
        assert(entries.take(i).last() == e);
        assert(entries.take(i).len() == i);
        let stepped = accumulate(ctx, true, entries.take(i));
        assert(stepped == acc_step(ctx, true, st, i - 1, e));
        if i - 1 < k1 {
            assert(!e.is_match);
            if bc >= 1 {
                if st.pending.len() >= bc {
                    assert(st.pending.drop_first().push(e) =~= entries.subrange(
                        if i - bc >= 0 { i - bc } else { 0 },
                        i,
                    ));
                } else {
                    assert(st.pending.push(e) =~= entries.subrange(
                        if i - bc >= 0 { i - bc } else { 0 },
                        i,
                    ));
                }
            }
        } else if i - 1 == k1 {
            assert(e.is_match);
            assert(st.out + st.pending.push(e) =~= entries.subrange(low, k1 + 1));
        } else if i - 1 < k2 {
            assert(!e.is_match);
            if i - 1 <= k1 + ac {
                assert(st.out.push(e) =~= entries.subrange(low, i));
            } else if bc >= 1 {
                if st.pending.len() >= bc {
                    assert(st.pending.drop_first().push(e) =~= entries.subrange(
                        if i - bc >= k1 + ac + 1 { i - bc } else { k1 + ac + 1 },
                        i,
                    ));
                } else {
                    assert(st.pending.push(e) =~= entries.subrange(
                        if i - bc >= k1 + ac + 1 { i - bc } else { k1 + ac + 1 },
                        i,
                    ));
                }
            }
        } else if i - 1 == k2 {
            assert(e.is_match);
            assert(st.out + st.pending.push(e) =~= entries.subrange(low, k2 + 1));
            assert(stepped.out == entries.subrange(
                low,
                if i <= k2 + ac + 1 { i } else { k2 + ac + 1 },
            ));
        } else {
            assert(!e.is_match);
            if i - 1 <= k2 + ac {
                assert(st.out.push(e) =~= entries.subrange(low, i));
            }
        }
    }
}

/// Window merge: when a stream's only direct matches stand at `k1` and
/// `k2` and their after- and before-windows overlap, entry-count mode
/// emits one contiguous block from `k1 - before_context` through
/// `k2 + after_context`, clipped to the stream, with nothing emitted
/// twice.
pub proof fn lemma_window_merge(bc: u32, ac: u32, entries: Seq<EntryModel>, k1: int, k2: int)
    requires
        0 <= k1 < k2 < entries.len(),
        forall|j: int| 0 <= j < entries.len() ==> ((#[trigger] entries[j].is_match) <==> (j == k1 || j == k2)),
        k2 - bc <= k1 + ac + 1,
    ensures
        accumulate(
            ContextConfig::Lines { before_context: bc, after_context: ac },
            true,
            entries,
        ).out == entries.subrange(
            if k1 - bc >= 0 { k1 - bc } else { 0 },
            if k2 + ac + 1 <= entries.len() { k2 + ac + 1 } else { entries.len() as int },
        ),
{
    lemma_double_match_state(bc, ac, entries, k1, k2, entries.len() as int);
    assert(entries.take(entries.len() as int) =~= entries);
}

/// Duration window correctness on the before-side: what a match
/// flushes out of the buffer is exactly the sequence of buffered
/// entries whose gap to the match's start time is strictly under the
/// before-window, in their buffered order.
pub proof fn lemma_kept_before_is_filter(before: int, cs: int, pending: Seq<EntryModel>)
    ensures
        kept_before(before, cs, pending) == pending.filter(|p: EntryModel| cs - p.end < before),
    decreases pending.len(),
{
    reveal(Seq::filter);
    if pending.len() > 0 {
        lemma_kept_before_is_filter(before, cs, pending.drop_last());
    }
}

} // verus!
