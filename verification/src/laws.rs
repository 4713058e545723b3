//! The library's laws: what holds of whole event streams, and of the
//! batches that splitting a session yields.

use vstd::arithmetic::div_mod::lemma_mod_multiples_vanish;
use vstd::prelude::*;

use crate::input::{Event, TestEvent};
use crate::payload::{
    batches_of, chunk_batches, complete_entries, incomplete_entries, keys_distinct, spec_apply,
    v_complete, v_has_key, v_idx, v_rec, EntryV, PayloadView, TestDataView,
};

verus! {

/// One applied event together with the clock reading under which it was
/// applied and the identity a newly created record received.
pub ghost struct LogEntry {
    pub event: Event,
    pub now: u64,
    pub id: Seq<char>,
}

/// The session state after applying a whole stream of events in order.
pub open spec fn run_stream(p: PayloadView, items: Seq<LogEntry>) -> PayloadView
    decreases items.len(),
{
    if items.len() == 0 {
        p
    } else {
        spec_apply(
            run_stream(p, items.drop_last()),
            items.last().event,
            items.last().now,
            items.last().id,
        )
    }
}

/// The event starts the test keyed by `k`.
pub open spec fn is_start_for(e: Event, k: Seq<char>) -> bool {
    e matches Event::Test { event: TestEvent::Started { name } } && name@ == k
}

/// The event is a terminal (pass or failure) event for the test keyed by
/// `k`.  Ignored and timed-out tests have no terminal event.
pub open spec fn is_terminal_for(e: Event, k: Seq<char>) -> bool {
    ||| (e matches Event::Test { event: TestEvent::Passed { name, .. } } && name@ == k)
    ||| (e matches Event::Test { event: TestEvent::Failed { name, .. } } && name@ == k)
}

/// The session holds a complete record keyed by `k`.
pub open spec fn complete_in(p: PayloadView, k: Seq<char>) -> bool {
    v_has_key(p.data, k) && v_complete(v_rec(p.data, k))
}

/// The stream completes the record keyed by `k`: some terminal event for
/// `k` follows a start event for `k`, with no further start event after it
/// (a later start would re-open the record).
pub open spec fn stream_completes(items: Seq<LogEntry>, k: Seq<char>) -> bool {
    exists|j: int|
        0 <= j < items.len() && is_terminal_for(items[j].event, k) && (exists|i: int|
            0 <= i < j && is_start_for(items[i].event, k)) && (forall|l: int|
            j < l < items.len() ==> !is_start_for(items[l].event, k))
}

/// Replacing the record stored under a present key `nk` keeps every key,
/// stores the new record under `nk`, and leaves all other records as they
/// were.
proof fn lemma_update_at_key(d: Seq<EntryV>, nk: Seq<char>, r2: TestDataView, k: Seq<char>)
    requires
        keys_distinct(d),
        v_has_key(d, nk),
    ensures
        keys_distinct(d.update(v_idx(d, nk), (nk, r2))),
        v_has_key(d.update(v_idx(d, nk), (nk, r2)), k) <==> v_has_key(d, k),
        k == nk ==> v_rec(d.update(v_idx(d, nk), (nk, r2)), k) == r2,
        k != nk && v_has_key(d, k) ==> v_rec(d.update(v_idx(d, nk), (nk, r2)), k) == v_rec(d, k),
{
    let ci = v_idx(d, nk);
    assert(0 <= ci < d.len() && d[ci].0 == nk);
    let d2 = d.update(ci, (nk, r2));
    assert forall|i: int| 0 <= i < d2.len() implies (#[trigger] d2[i]).0 == d[i].0 by {}
    assert forall|a: int, b: int| 0 <= a < b < d2.len() implies d2[a].0 != d2[b].0 by {
        assert(d[a].0 != d[b].0);
    }
    if v_has_key(d2, k) {
        let w = choose|w: int| 0 <= w < d2.len() && d2[w].0 == k;
        assert(d[w].0 == k);
        assert(v_has_key(d, k));
    }
    if v_has_key(d, k) {
        let w = choose|w: int| 0 <= w < d.len() && d[w].0 == k;
        assert(d2[w].0 == k);
        assert(v_has_key(d2, k));
    }
    if k == nk {
        let w2 = v_idx(d2, k);
        assert(0 <= w2 < d2.len() && d2[w2].0 == k);
        if w2 != ci {
            assert(d[w2].0 == k);
            assert(d[ci].0 == k);
            assert(false);
        }
        assert(v_rec(d2, k) == r2);
    } else if v_has_key(d, k) {
        let i0 = v_idx(d, k);
        assert(0 <= i0 < d.len() && d[i0].0 == k);
        assert(i0 != ci);
        let w2 = v_idx(d2, k);
        assert(0 <= w2 < d2.len() && d2[w2].0 == k);
        if w2 != i0 {
            assert(d[w2].0 == k);
            assert(false);
        }
        assert(v_rec(d2, k) == d[i0].1);
    }
}

/// Appending a record under a fresh key keeps every stored record, adds
/// the new one, and keeps keys pairwise distinct.
proof fn lemma_push_new_key(d: Seq<EntryV>, nk: Seq<char>, r2: TestDataView, k: Seq<char>)
    requires
        keys_distinct(d),
        !v_has_key(d, nk),
    ensures
        keys_distinct(d.push((nk, r2))),
        v_has_key(d.push((nk, r2)), k) <==> (v_has_key(d, k) || k == nk),
        k == nk ==> v_rec(d.push((nk, r2)), k) == r2,
        k != nk && v_has_key(d, k) ==> v_rec(d.push((nk, r2)), k) == v_rec(d, k),
{
    let d2 = d.push((nk, r2));
    assert forall|i: int| 0 <= i < d.len() implies (#[trigger] d2[i]).0 == d[i].0 by {}
    assert(d2[d.len() as int].0 == nk);
    assert forall|i: int| 0 <= i < d.len() implies (#[trigger] d[i]).0 != nk by {
        if d[i].0 == nk {
            assert(v_has_key(d, nk));
        }
    }
    assert forall|a: int, b: int| 0 <= a < b < d2.len() implies d2[a].0 != d2[b].0 by {
        if b < d.len() {
            assert(d[a].0 != d[b].0);
        } else {
            assert(d[a].0 != nk);
        }
    }
    if v_has_key(d2, k) {
        let w = choose|w: int| 0 <= w < d2.len() && d2[w].0 == k;
        if w < d.len() {
            assert(d[w].0 == k);
            assert(v_has_key(d, k));
        } else {
            assert(k == nk);
        }
    }
    if v_has_key(d, k) {
        let w = choose|w: int| 0 <= w < d.len() && d[w].0 == k;
        assert(d2[w].0 == k);
        assert(v_has_key(d2, k));
    }
    if k == nk {
        assert(v_has_key(d2, k));
        let w2 = v_idx(d2, k);
        assert(0 <= w2 < d2.len() && d2[w2].0 == k);
        if w2 != d.len() {
            assert(d[w2].0 == k);
            assert(v_has_key(d, nk));
        }
        assert(v_rec(d2, k) == r2);
    } else if v_has_key(d, k) {
        let i0 = v_idx(d, k);
        assert(0 <= i0 < d.len() && d[i0].0 == k);
        let w2 = v_idx(d2, k);
        assert(0 <= w2 < d2.len() && d2[w2].0 == k);
        if w2 == d.len() {
            assert(k == nk);
        }
        if w2 != i0 {
            assert(d[w2].0 == k);
            assert(false);
        }
        assert(v_rec(d2, k) == d[i0].1);
    }
}

/// How one applied event changes what is stored under `k`: a start event
/// for `k` leaves an incomplete record there; a terminal event for `k`
/// leaves a complete record exactly when `k` was present; any other event
/// leaves the record under `k` untouched.  Keys stay pairwise distinct and
/// appear only through start events.
proof fn lemma_apply_effect(p: PayloadView, e: Event, now: u64, id: Seq<char>, k: Seq<char>)
    requires
        keys_distinct(p.data),
    ensures
        keys_distinct(spec_apply(p, e, now, id).data),
        v_has_key(spec_apply(p, e, now, id).data, k) <==> (v_has_key(p.data, k) || is_start_for(
            e,
            k,
        )),
        is_start_for(e, k) ==> !complete_in(spec_apply(p, e, now, id), k),
        is_terminal_for(e, k) ==> (complete_in(spec_apply(p, e, now, id), k) <==> v_has_key(
            p.data,
            k,
        )),
        (!is_start_for(e, k) && !is_terminal_for(e, k)) ==> (complete_in(
            spec_apply(p, e, now, id),
            k,
        ) <==> complete_in(p, k)),
{
    let d = p.data;
    let f = spec_apply(p, e, now, id);
    match e {
        Event::Suite { .. } => {
            assert(f.data == d);
        },
        Event::Test { event: te } => match te {
            TestEvent::Started { name } => {
                let nk = name@;
                if v_has_key(d, nk) {
                    lemma_update_at_key(
                        d,
                        nk,
                        crate::payload::fresh_record(
                            nk,
                            id,
                            crate::payload::offset_from(
                                crate::payload::implicit_start(p.started_at, now),
                                now,
                            ),
                        ),
                        k,
                    );
                } else {
                    lemma_push_new_key(
                        d,
                        nk,
                        crate::payload::fresh_record(
                            nk,
                            id,
                            crate::payload::offset_from(
                                crate::payload::implicit_start(p.started_at, now),
                                now,
                            ),
                        ),
                        k,
                    );
                }
            },
            TestEvent::Passed { name, exec_time } => {
                let nk = name@;
                if v_has_key(d, nk) {
                    let r = v_rec(d, nk);
                    lemma_update_at_key(
                        d,
                        nk,
                        crate::payload::close_record(
                            r,
                            crate::payload::offset_from(
                                crate::payload::implicit_start(p.started_at, now),
                                now,
                            ),
                            exec_time,
                            r.result,
                        ),
                        k,
                    );
                } else {
                    assert(f == p);
                }
            },
            TestEvent::Failed { name, exec_time, stdout, .. } => {
                let nk = name@;
                if v_has_key(d, nk) {
                    let r = v_rec(d, nk);
                    lemma_update_at_key(
                        d,
                        nk,
                        crate::payload::close_record(
                            r,
                            crate::payload::offset_from(
                                crate::payload::implicit_start(p.started_at, now),
                                now,
                            ),
                            exec_time,
                            crate::payload::TestResultView::Failed {
                                failure_reason: stdout.deep_view(),
                            },
                        ),
                        k,
                    );
                } else {
                    assert(f == p);
                }
            },
            _ => {
                assert(f == p);
            },
        },
    }
}

/// Keys stay pairwise distinct over any stream.
proof fn lemma_stream_distinct(init: PayloadView, items: Seq<LogEntry>)
    requires
        keys_distinct(init.data),
    ensures
        keys_distinct(run_stream(init, items).data),
    decreases items.len(),
{
    if items.len() > 0 {
        lemma_stream_distinct(init, items.drop_last());
        lemma_apply_effect(
            run_stream(init, items.drop_last()),
            items.last().event,
            items.last().now,
            items.last().id,
            Seq::empty(),
        );
    }
}

/// A key is stored after a stream exactly when some event of the stream
/// started it.
proof fn lemma_stream_key(init: PayloadView, items: Seq<LogEntry>, k: Seq<char>)
    requires
        init.data.len() == 0,
    ensures
        v_has_key(run_stream(init, items).data, k) <==> exists|i: int|
            0 <= i < items.len() && is_start_for(items[i].event, k),
    decreases items.len(),
{
    if items.len() == 0 {
        assert(!v_has_key(init.data, k));
    } else {
        let prev = items.drop_last();
        let last = items.last();
        lemma_stream_key(init, prev, k);
        lemma_stream_distinct(init, prev);
        lemma_apply_effect(run_stream(init, prev), last.event, last.now, last.id, k);
        assert forall|i: int| 0 <= i < prev.len() implies #[trigger] prev[i] == items[i] by {}
        assert(items[items.len() - 1] == last);
        if v_has_key(run_stream(init, items).data, k) {
            if v_has_key(run_stream(init, prev).data, k) {
                let i = choose|i: int| 0 <= i < prev.len() && is_start_for(prev[i].event, k);
                assert(is_start_for(items[i].event, k));
            } else {
                assert(is_start_for(items[items.len() - 1].event, k));
            }
        }
        if exists|i: int| 0 <= i < items.len() && is_start_for(items[i].event, k) {
            let i = choose|i: int| 0 <= i < items.len() && is_start_for(items[i].event, k);
            if i < items.len() - 1 {
                assert(is_start_for(prev[i].event, k));
            }
            assert(v_has_key(run_stream(init, items).data, k));
        }
    }
}

/// A record is complete after a stream exactly when the stream completed
/// it: a terminal (pass or failure) event for its key was applied after
/// its start event, with no later re-start.  In particular, ignored and
/// timed-out tests never complete a record.
pub proof fn lemma_complete_iff_terminal(init: PayloadView, items: Seq<LogEntry>, k: Seq<char>)
    requires
        init.data.len() == 0,
    ensures
        complete_in(run_stream(init, items), k) <==> stream_completes(items, k),
    decreases items.len(),
{
    if items.len() == 0 {
        assert(!v_has_key(init.data, k));
        assert(!stream_completes(items, k));
    } else {
        let prev = items.drop_last();
        let last = items.last();
        let n = items.len() as int;
        lemma_complete_iff_terminal(init, prev, k);
        lemma_stream_key(init, prev, k);
        lemma_stream_distinct(init, prev);
        lemma_apply_effect(run_stream(init, prev), last.event, last.now, last.id, k);
        assert forall|i: int| 0 <= i < prev.len() implies #[trigger] prev[i] == items[i] by {}
        assert(items[n - 1] == last);
        if is_start_for(last.event, k) {
            assert(!complete_in(run_stream(init, items), k));
            if stream_completes(items, k) {
                let j = choose|j: int|
                    0 <= j < n && is_terminal_for(items[j].event, k) && (exists|i: int|
                        0 <= i < j && is_start_for(items[i].event, k)) && (forall|l: int|
                        j < l < n ==> !is_start_for(items[l].event, k));
                assert(!is_start_for(items[n - 1].event, k) || j >= n - 1);
                assert(j == n - 1);
                assert(is_terminal_for(last.event, k));
                assert(false);
            }
        } else if is_terminal_for(last.event, k) {
            if v_has_key(run_stream(init, prev).data, k) {
                let i = choose|i: int| 0 <= i < prev.len() && is_start_for(prev[i].event, k);
                assert(0 <= i < n - 1 && is_start_for(items[i].event, k));
                assert(forall|l: int| n - 1 < l < n ==> !is_start_for(items[l].event, k));
                assert(stream_completes(items, k));
                assert(complete_in(run_stream(init, items), k));
            } else {
                assert(!complete_in(run_stream(init, items), k));
                if stream_completes(items, k) {
                    let j = choose|j: int|
                        0 <= j < n && is_terminal_for(items[j].event, k) && (exists|i: int|
                            0 <= i < j && is_start_for(items[i].event, k)) && (forall|l: int|
                            j < l < n ==> !is_start_for(items[l].event, k));
                    let i = choose|i: int| 0 <= i < j && is_start_for(items[i].event, k);
                    assert(i < n - 1);
                    assert(is_start_for(prev[i].event, k));
                    assert(v_has_key(run_stream(init, prev).data, k));
                    assert(false);
                }
            }
        } else {
            assert(complete_in(run_stream(init, items), k) <==> complete_in(
                run_stream(init, prev),
                k,
            ));
            if stream_completes(prev, k) {
                let j = choose|j: int|
                    0 <= j < prev.len() && is_terminal_for(prev[j].event, k) && (exists|i: int|
                        0 <= i < j && is_start_for(prev[i].event, k)) && (forall|l: int|
                        j < l < prev.len() ==> !is_start_for(prev[l].event, k));
                let i = choose|i: int| 0 <= i < j && is_start_for(prev[i].event, k);
                assert(is_terminal_for(items[j].event, k));
                assert(is_start_for(items[i].event, k));
                assert forall|l: int| j < l < n implies !is_start_for(items[l].event, k) by {
                    if l < n - 1 {
                        assert(!is_start_for(prev[l].event, k));
                    }
                }
                assert(stream_completes(items, k));
            }
            if stream_completes(items, k) {
                let j = choose|j: int|
                    0 <= j < n && is_terminal_for(items[j].event, k) && (exists|i: int|
                        0 <= i < j && is_start_for(items[i].event, k)) && (forall|l: int|
                        j < l < n ==> !is_start_for(items[l].event, k));
                assert(j != n - 1);
                let i = choose|i: int| 0 <= i < j && is_start_for(items[i].event, k);
                assert(is_terminal_for(prev[j].event, k));
                assert(is_start_for(prev[i].event, k));
                assert forall|l: int| j < l < prev.len() implies !is_start_for(prev[l].event, k) by {
                    assert(!is_start_for(items[l].event, k));
                }
                assert(stream_completes(prev, k));
            }
        }
    }
}

/// Splitting the complete entries into groups never yields a group larger
/// than the ceiling, provided the incomplete entries fit beside the final
/// underfull chunk (they are appended there whole; with no incomplete
/// entries, or with none left over, every group is within the ceiling).
pub proof fn lemma_batch_size_bound(cs: Seq<EntryV>, inc: Seq<EntryV>, bs: int)
    requires
        bs >= 1,
        cs.len() as int % bs == 0 || cs.len() as int % bs + inc.len() <= bs,
    ensures
        forall|i: int|
            0 <= i < chunk_batches(cs, inc, bs).len() ==> #[trigger] chunk_batches(
                cs,
                inc,
                bs,
            )[i].len() <= bs,
    decreases cs.len(),
{
    let ch = chunk_batches(cs, inc, bs);
    if cs.len() == 0 {
    } else if cs.len() > bs {
        lemma_mod_multiples_vanish(1, cs.len() - bs, bs);
        assert((cs.len() - bs) % bs == cs.len() as int % bs);
        assert(cs.skip(bs).len() == cs.len() - bs);
        lemma_batch_size_bound(cs.skip(bs), inc, bs);
        assert forall|i: int| 0 <= i < ch.len() implies #[trigger] ch[i].len() <= bs by {
            if i == 0 {
                assert(ch[0] == cs.take(bs));
            } else {
                assert(ch[i] == chunk_batches(cs.skip(bs), inc, bs)[i - 1]);
            }
        }
    } else if cs.len() < bs {
        assert(cs.len() as int % bs == cs.len() as int) by {
            vstd::arithmetic::div_mod::lemma_small_mod(cs.len(), bs as nat);
        }
        assert(cs.len() + inc.len() <= bs);
        assert(ch[0] == cs + inc);
    } else {
        assert(ch[0] == cs);
    }
}

/// Complete entries distribute over concatenation.
proof fn lemma_complete_entries_add(a: Seq<EntryV>, b: Seq<EntryV>)
    ensures
        complete_entries(a + b) == complete_entries(a) + complete_entries(b),
    decreases b.len(),
{
    if b.len() == 0 {
        assert(a + b =~= a);
        assert(complete_entries(b) =~= Seq::<EntryV>::empty());
        assert(complete_entries(a) + complete_entries(b) =~= complete_entries(a));
    } else {
        lemma_complete_entries_add(a, b.drop_last());
        assert((a + b).drop_last() =~= a + b.drop_last());
        assert((a + b).last() == b.last());
        if v_complete(b.last().1) {
            assert(complete_entries(a + b) == (complete_entries(a) + complete_entries(
                b.drop_last(),
            )).push(b.last()));
            assert((complete_entries(a) + complete_entries(b.drop_last())).push(b.last())
                =~= complete_entries(a) + complete_entries(b.drop_last()).push(b.last()));
        }
    }
}

/// A run of wholly complete entries is its own complete part.
proof fn lemma_complete_entries_all(s: Seq<EntryV>)
    requires
        forall|i: int| 0 <= i < s.len() ==> v_complete((#[trigger] s[i]).1),
    ensures
        complete_entries(s) == s,
    decreases s.len(),
{
    if s.len() > 0 {
        assert(v_complete(s[s.len() - 1].1));
        lemma_complete_entries_all(s.drop_last());
        assert(s.drop_last().push(s.last()) =~= s);
    }
}

/// A run of wholly incomplete entries has no complete part.
proof fn lemma_complete_entries_none(s: Seq<EntryV>)
    requires
        forall|i: int| 0 <= i < s.len() ==> !v_complete((#[trigger] s[i]).1),
    ensures
        complete_entries(s) == Seq::<EntryV>::empty(),
    decreases s.len(),
{
    if s.len() > 0 {
        assert(!v_complete(s[s.len() - 1].1));
        lemma_complete_entries_none(s.drop_last());
    }
}

/// No group is made of incomplete records alone: every group opens with a
/// complete record, and a group that carries any incomplete record has
/// strictly fewer complete records than the ceiling (they ride along on an
/// underfull chunk only).
pub proof fn lemma_no_batch_of_incomplete(cs: Seq<EntryV>, inc: Seq<EntryV>, bs: int)
    requires
        bs >= 1,
        forall|i: int| 0 <= i < cs.len() ==> v_complete((#[trigger] cs[i]).1),
        forall|i: int| 0 <= i < inc.len() ==> !v_complete((#[trigger] inc[i]).1),
    ensures
        forall|i: int|
            0 <= i < chunk_batches(cs, inc, bs).len() ==> (#[trigger] chunk_batches(
                cs,
                inc,
                bs,
            )[i]).len() > 0 && v_complete(chunk_batches(cs, inc, bs)[i][0].1),
        forall|i: int, j: int|
            0 <= i < chunk_batches(cs, inc, bs).len() && 0 <= j < chunk_batches(cs, inc, bs)[i].len()
                && !v_complete((#[trigger] chunk_batches(cs, inc, bs)[i][j]).1)
                ==> complete_entries(chunk_batches(cs, inc, bs)[i]).len() < bs,
    decreases cs.len(),
{
    let ch = chunk_batches(cs, inc, bs);
    if cs.len() == 0 {
    } else if cs.len() > bs {
        assert forall|i: int| 0 <= i < cs.skip(bs).len() implies v_complete(
            (#[trigger] cs.skip(bs)[i]).1,
        ) by {
            assert(cs.skip(bs)[i] == cs[bs + i]);
        }
        lemma_no_batch_of_incomplete(cs.skip(bs), inc, bs);
        assert forall|i: int|
            0 <= i < ch.len() implies (#[trigger] ch[i]).len() > 0 && v_complete(ch[i][0].1) by {
            if i == 0 {
                assert(ch[0] == cs.take(bs));
                assert(cs.take(bs)[0] == cs[0]);
            } else {
                assert(ch[i] == chunk_batches(cs.skip(bs), inc, bs)[i - 1]);
            }
        }
        assert forall|i: int, j: int|
            0 <= i < ch.len() && 0 <= j < ch[i].len() && !v_complete(
                (#[trigger] ch[i][j]).1,
            ) implies complete_entries(ch[i]).len() < bs by {
            if i == 0 {
                assert(ch[0] == cs.take(bs));
                assert(cs.take(bs)[j] == cs[j]);
                assert(v_complete(ch[0][j].1));
            } else {
                assert(ch[i] == chunk_batches(cs.skip(bs), inc, bs)[i - 1]);
            }
        }
    } else if cs.len() < bs {
        assert(ch[0] == cs + inc);
        assert((cs + inc)[0] == cs[0]);
        lemma_complete_entries_add(cs, inc);
        lemma_complete_entries_all(cs);
        lemma_complete_entries_none(inc);
        assert(complete_entries(cs + inc) =~= cs);
    } else {
        assert(ch[0] == cs);
        lemma_complete_entries_all(cs);
        assert forall|i: int, j: int|
            0 <= i < ch.len() && 0 <= j < ch[i].len() && !v_complete(
                (#[trigger] ch[i][j]).1,
            ) implies complete_entries(ch[i]).len() < bs by {
            assert(v_complete(cs[j].1));
        }
    }
}

/// The complete records found across all groups, in group order.
pub open spec fn flatten_complete(groups: Seq<Seq<EntryV>>) -> Seq<EntryV>
    decreases groups.len(),
{
    if groups.len() == 0 {
        Seq::empty()
    } else {
        complete_entries(groups[0]) + flatten_complete(groups.skip(1))
    }
}

/// Splitting loses no complete record and invents none: the complete
/// records of the groups, taken in order, are exactly the complete entries
/// that went in.  Together with `batchify` borrowing the session
/// immutably, deriving the complete records again after a split yields
/// what it yielded before.
pub proof fn lemma_batches_cover(cs: Seq<EntryV>, inc: Seq<EntryV>, bs: int)
    requires
        bs >= 1,
        forall|i: int| 0 <= i < cs.len() ==> v_complete((#[trigger] cs[i]).1),
        forall|i: int| 0 <= i < inc.len() ==> !v_complete((#[trigger] inc[i]).1),
    ensures
        flatten_complete(chunk_batches(cs, inc, bs)) == cs,
    decreases cs.len(),
{
    let ch = chunk_batches(cs, inc, bs);
    if cs.len() == 0 {
        assert(flatten_complete(ch) =~= cs);
    } else if cs.len() > bs {
        assert forall|i: int| 0 <= i < cs.skip(bs).len() implies v_complete(
            (#[trigger] cs.skip(bs)[i]).1,
        ) by {
            assert(cs.skip(bs)[i] == cs[bs + i]);
        }
        lemma_batches_cover(cs.skip(bs), inc, bs);
        assert(ch[0] == cs.take(bs));
        assert(ch.skip(1) =~= chunk_batches(cs.skip(bs), inc, bs));
        assert forall|i: int| 0 <= i < cs.take(bs).len() implies v_complete(
            (#[trigger] cs.take(bs)[i]).1,
        ) by {
            assert(cs.take(bs)[i] == cs[i]);
        }
        lemma_complete_entries_all(cs.take(bs));
        assert(flatten_complete(ch) == cs.take(bs) + cs.skip(bs));
        assert(cs.take(bs) + cs.skip(bs) =~= cs);
    } else if cs.len() < bs {
        assert(ch[0] == cs + inc);
        assert(ch.skip(1) =~= Seq::<Seq<EntryV>>::empty());
        lemma_complete_entries_add(cs, inc);
        lemma_complete_entries_all(cs);
        lemma_complete_entries_none(inc);
        assert(complete_entries(ch[0]) =~= cs);
        assert(flatten_complete(ch.skip(1)) == Seq::<EntryV>::empty());
        assert(flatten_complete(ch) == complete_entries(ch[0]) + flatten_complete(ch.skip(1)));
        assert(flatten_complete(ch) =~= cs);
    } else {
        assert(ch[0] == cs);
        assert(ch.skip(1) =~= Seq::<Seq<EntryV>>::empty());
        lemma_complete_entries_all(cs);
        assert(complete_entries(ch[0]) == cs);
        assert(flatten_complete(ch.skip(1)) == Seq::<EntryV>::empty());
        assert(flatten_complete(ch) == complete_entries(ch[0]) + flatten_complete(ch.skip(1)));
        assert(flatten_complete(ch) =~= cs);
    }
}


/// Every entry the complete side of the partition keeps is complete, and
/// every entry the incomplete side keeps is not.
proof fn lemma_entries_status(d: Seq<EntryV>)
    ensures
        forall|i: int|
            0 <= i < complete_entries(d).len() ==> v_complete(
                (#[trigger] complete_entries(d)[i]).1,
            ),
        forall|i: int|
            0 <= i < incomplete_entries(d).len() ==> !v_complete(
                (#[trigger] incomplete_entries(d)[i]).1,
            ),
    decreases d.len(),
{
    if d.len() > 0 {
        lemma_entries_status(d.drop_last());
        let csp = complete_entries(d.drop_last());
        let incp = incomplete_entries(d.drop_last());
        if v_complete(d.last().1) {
            assert forall|i: int|
                0 <= i < complete_entries(d).len() implies v_complete(
                (#[trigger] complete_entries(d)[i]).1,
            ) by {
                if i < csp.len() {
                    assert(complete_entries(d)[i] == csp[i]);
                }
            }
        } else {
            assert forall|i: int|
                0 <= i < incomplete_entries(d).len() implies !v_complete(
                (#[trigger] incomplete_entries(d)[i]).1,
            ) by {
                if i < incp.len() {
                    assert(incomplete_entries(d)[i] == incp[i]);
                }
            }
        }
    }
}

/// Splitting a session never yields a group larger than the ceiling,
/// provided the incomplete records fit beside the final underfull chunk
/// (with none, or none left over, the bound always holds).
pub proof fn lemma_split_size_bound(p: PayloadView, bs: int)
    requires
        bs >= 1,
        complete_entries(p.data).len() as int % bs == 0 || complete_entries(p.data).len() as int
            % bs + incomplete_entries(p.data).len() <= bs,
    ensures
        forall|i: int|
            0 <= i < batches_of(p, bs).len() ==> #[trigger] batches_of(p, bs)[i].len() <= bs,
{
    lemma_batch_size_bound(complete_entries(p.data), incomplete_entries(p.data), bs);
}

/// No group of a split is made of incomplete records alone: every group
/// opens with a complete record, and incomplete records appear only in a
/// group whose complete part is strictly under the ceiling.
pub proof fn lemma_split_no_incomplete_batch(p: PayloadView, bs: int)
    requires
        bs >= 1,
    ensures
        forall|i: int|
            0 <= i < batches_of(p, bs).len() ==> (#[trigger] batches_of(p, bs)[i]).len() > 0
                && v_complete(batches_of(p, bs)[i][0].1),
        forall|i: int, j: int|
            0 <= i < batches_of(p, bs).len() && 0 <= j < batches_of(p, bs)[i].len()
                && !v_complete((#[trigger] batches_of(p, bs)[i][j]).1) ==> complete_entries(
                batches_of(p, bs)[i],
            ).len() < bs,
{
    lemma_entries_status(p.data);
    lemma_no_batch_of_incomplete(complete_entries(p.data), incomplete_entries(p.data), bs);
}

/// Splitting a session loses no complete record and invents none: the
/// complete records of its groups, in order, are exactly the session's
/// complete entries.  The session itself is borrowed immutably by the
/// split, so deriving its complete records again afterwards yields what it
/// yielded before.
pub proof fn lemma_split_covers_complete(p: PayloadView, bs: int)
    requires
        bs >= 1,
    ensures
        flatten_complete(batches_of(p, bs)) == complete_entries(p.data),
{
    lemma_entries_status(p.data);
    lemma_batches_cover(complete_entries(p.data), incomplete_entries(p.data), bs);
}
} // verus!
