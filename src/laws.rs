//! Properties that relate several operations of the library.

use crate::commands::{
    executes, get_reply, name_of, ok_reply, propagation, run_one, session_step,
    set_outcome, w, words_of, follower_step, CommandName,
};
use crate::commands::{
    entries_value, is_block, is_streams, read_id, xread_block, xread_next, xread_reply, XreadStep,
};
use crate::config::ArgumentView;
use crate::decimal::decimal_field;
use crate::replication::ReplicationView;
use crate::resp::ValueView;
use crate::store::{
    after_id, append_outcome, appended, expiry, in_range, spec_get, spec_set, stream_at, stream_ok,
    Store,
    StoreError, StoredView,
};
use crate::stream::{id_lt, IdSpec, StreamEntryId, StreamEntryValidate, StreamEntryView};
use crate::transaction::{queued_reply, TransactionView};
use vstd::prelude::*;

verus! {

/// After `SET k v` without expiry, `GET k` gives `v` at any later time.
pub proof fn lemma_set_then_get(m: Map<Seq<u8>, StoredView>, k: Seq<u8>, v: Seq<u8>, now: u64, later: u64)
    requires
        !(m.contains_key(k) && m[k] is Stream),
    ensures
        spec_set(m, k, v, None, now) is Some,
        spec_get(spec_set(m, k, v, None, now)->0, k, later) == Ok::<Seq<u8>, StoreError>(v),
{
}

/// After `SET k v PX px` at `now`, `GET k` gives `v` up to `now + px` and
/// nothing after it.
pub proof fn lemma_set_px_then_get(
    m: Map<Seq<u8>, StoredView>,
    k: Seq<u8>,
    v: Seq<u8>,
    px: u64,
    now: u64,
    later: u64,
)
    requires
        !(m.contains_key(k) && m[k] is Stream),
        now + px <= u64::MAX,
    ensures
        spec_set(m, k, v, Some(px), now) is Some,
        later <= now + px ==> spec_get(spec_set(m, k, v, Some(px), now)->0, k, later) == Ok::<Seq<u8>, StoreError>(v),
        later > now + px ==> spec_get(spec_set(m, k, v, Some(px), now)->0, k, later) == Err::<Seq<u8>, StoreError>(StoreError::NotFound),
{
}

/// The commands `SET k v` then `GET k`: the second replies `v` in bulk.
pub proof fn lemma_set_command_then_get(
    m: Map<Seq<u8>, StoredView>,
    k: Seq<u8>,
    v: Seq<u8>,
    now: u64,
    later: u64,
)
    requires
        !(m.contains_key(k) && m[k] is Stream),
    ensures
        set_outcome(m, seq![k, v], now).1 == ok_reply(),
        get_reply(set_outcome(m, seq![k, v], now).0, seq![k], later) == ValueView::BulkString(v),
{
}

/// An entry appended under an explicit id cannot be followed by another one
/// under the same id.
pub proof fn lemma_same_id_twice(es: Seq<StreamEntryView>, id: StreamEntryId, f: Seq<(Seq<u8>, Seq<u8>)>, now: u64)
    requires
        append_outcome(es, IdSpec::Explicit(id), now) == StreamEntryValidate::Successfull(id),
    ensures
        append_outcome(appended(es, id, f), IdSpec::Explicit(id), now) == StreamEntryValidate::EIsSmallerOrEqual,
{
}

/// `0-0` is never accepted as the id of a new entry.
pub proof fn lemma_zero_id_rejected(es: Seq<StreamEntryView>, now: u64)
    ensures
        append_outcome(es, IdSpec::Explicit(StreamEntryId { ms: 0, seq: 0 }), now) == StreamEntryValidate::EGreaterThan0_0,
{
}

/// Two appends with `*` in the same millisecond `now` to a new stream get the
/// ids `now-0` and `now-1`.
pub proof fn lemma_auto_ids_same_ms(
    m: Map<Seq<u8>, StoredView>,
    k: Seq<u8>,
    f1: Seq<(Seq<u8>, Seq<u8>)>,
    now: u64,
)
    requires
        now > 0,
        stream_at(m, k, now) == Some(Seq::<StreamEntryView>::empty()),
    ensures
        append_outcome(Seq::empty(), IdSpec::Auto, now) == StreamEntryValidate::Successfull(
            StreamEntryId { ms: now, seq: 0 },
        ),
        stream_at(
            m.insert(k, StoredView::Stream(appended(Seq::empty(), StreamEntryId { ms: now, seq: 0 }, f1))),
            k,
            now,
        ) == Some(appended(Seq::empty(), StreamEntryId { ms: now, seq: 0 }, f1)),
        append_outcome(appended(Seq::empty(), StreamEntryId { ms: now, seq: 0 }, f1), IdSpec::Auto, now)
            == StreamEntryValidate::Successfull(StreamEntryId { ms: now, seq: 1 }),
{
    let es1 = appended(Seq::<StreamEntryView>::empty(), StreamEntryId { ms: now, seq: 0 }, f1);
    assert(es1.last().id == StreamEntryId { ms: now, seq: 0 });
}

/// `XRANGE k - +` gives every entry of the stream, and they come in strictly
/// increasing order of id.
pub proof fn lemma_full_range(es: Seq<StreamEntryView>)
    requires
        stream_ok(es),
    ensures
        in_range(es, StreamEntryId { ms: 0, seq: 0 }, StreamEntryId { ms: u64::MAX, seq: u64::MAX }) == es,
        forall|i: int, j: int| 0 <= i < j < es.len() ==> id_lt(#[trigger] es[i].id, #[trigger] es[j].id),
    decreases es.len(),
{
    let lo = StreamEntryId { ms: 0, seq: 0 };
    let hi = StreamEntryId { ms: u64::MAX, seq: u64::MAX };
    reveal(Seq::filter);
    if es.len() > 0 {
        let t = es.drop_last();
        assert(stream_ok(t)) by {
            assert forall|i: int, j: int| 0 <= i < j < t.len() implies id_lt(#[trigger] t[i].id, #[trigger] t[j].id) by {
                assert(t[i] == es[i] && t[j] == es[j]);
            }
            assert forall|i: int| 0 <= i < t.len() implies id_lt(lo, #[trigger] t[i].id) by {
                assert(t[i] == es[i]);
            }
        }
        lemma_full_range(t);
        assert(in_range(es, lo, hi) =~= es);
    } else {
        assert(in_range(es, lo, hi) =~= es);
    }
}

/// Where every entry of a stream is at or below `after`, appending an entry
/// above it makes a read after `after` give exactly that entry.
pub proof fn lemma_read_sees_new_entry(
    es: Seq<StreamEntryView>,
    after: StreamEntryId,
    id: StreamEntryId,
    f: Seq<(Seq<u8>, Seq<u8>)>,
)
    requires
        forall|i: int| 0 <= i < es.len() ==> !id_lt(after, #[trigger] es[i].id),
        id_lt(after, id),
    ensures
        after_id(es, after).len() == 0,
        after_id(appended(es, id, f), after) == seq![StreamEntryView { id, fields: f }],
    decreases es.len(),
{
    reveal(Seq::filter);
    if es.len() > 0 {
        let t = es.drop_last();
        assert forall|i: int| 0 <= i < t.len() implies !id_lt(after, #[trigger] t[i].id) by {
            assert(t[i] == es[i]);
        }
        lemma_read_sees_new_entry(t, after, id, f);
        assert(appended(es, id, f).drop_last() =~= es);
        assert(es.last() == es[es.len() - 1]);
    } else {
        assert(appended(es, id, f).drop_last() =~= es);
    }
    let e = StreamEntryView { id, fields: f };
    es.lemma_filter_push(e, crate::store::after_pred(after));
    assert(after_id(appended(es, id, f), after) =~= seq![e]);
}

/// `MULTI`, then a command, then `EXEC`: the command is acknowledged as queued
/// and changes nothing until `EXEC`, which replies an array of the one reply the
/// command gives when run alone.
pub proof fn lemma_transaction_runs_queued(
    m0: Map<Seq<u8>, StoredView>,
    cfg: ArgumentView,
    rep: ReplicationView,
    multi: ValueView,
    cmd: ValueView,
    exec: ValueView,
    now1: u64,
    now2: u64,
    now3: u64,
    m1: Map<Seq<u8>, StoredView>,
    t1: TransactionView,
    r1: ValueView,
    props_multi: Seq<ValueView>,
    m2: Map<Seq<u8>, StoredView>,
    t2: TransactionView,
    r2: ValueView,
    props_cmd: Seq<ValueView>,
    m3: Map<Seq<u8>, StoredView>,
    t3: TransactionView,
    r3: ValueView,
    props_exec: Seq<ValueView>,
)
    requires
        words_of(multi) == Some(seq![w("MULTI"@)]),
        words_of(exec) == Some(seq![w("EXEC"@)]),
        words_of(cmd) is Some,
        name_of(words_of(cmd)->0[0]) != CommandName::Multi,
        name_of(words_of(cmd)->0[0]) != CommandName::Exec,
        session_step(m0, TransactionView { queuing: false, pending: Seq::empty() }, cfg, rep, multi, now1, m1, t1, r1, props_multi),
        session_step(m1, t1, cfg, rep, cmd, now2, m2, t2, r2, props_cmd),
        session_step(m2, t2, cfg, rep, exec, now3, m3, t3, r3, props_exec),
    ensures
        r1 == ok_reply(),
        r2 == queued_reply(),
        m1 == m0 && m2 == m0,
        r3 is Array && r3->Array_0.len() == 1,
        run_one(m0, cfg, rep, cmd, now3, m3, r3->Array_0[0]),
        t3 == (TransactionView { queuing: false, pending: Seq::empty() }),
{
    crate::commands::lemma_name_literals();
    assert(t2.pending == seq![cmd]);
    let rs = r3->Array_0;
    assert(t2.pending.drop_last() =~= Seq::<ValueView>::empty());
    let mid = choose|mid: Map<Seq<u8>, StoredView>|
        crate::commands::runs_all(m2, cfg, rep, t2.pending.drop_last(), now3, mid, rs.drop_last()) && run_one(
            mid,
            cfg,
            rep,
            t2.pending.last(),
            now3,
            m3,
            rs.last(),
        );
    assert(mid == m2);
}

/// A `SET k v` that succeeds on the leader is forwarded as one command array;
/// a follower that applies it then answers `GET k` with `v`.
pub proof fn lemma_follower_sees_leader_set(
    ml: Map<Seq<u8>, StoredView>,
    cfg: ArgumentView,
    rep: ReplicationView,
    k: Seq<u8>,
    v: Seq<u8>,
    now: u64,
    ml2: Map<Seq<u8>, StoredView>,
    reply: ValueView,
    mf: Map<Seq<u8>, StoredView>,
    repf: ReplicationView,
    consumed: u64,
    nowf: u64,
    mf2: Map<Seq<u8>, StoredView>,
    repf2: ReplicationView,
    ack: Option<ValueView>,
    later: u64,
)
    requires
        executes(ml, cfg, rep, seq![w("SET"@), k, v], now, ml2, reply),
        reply == ok_reply(),
        !(mf.contains_key(k) && mf[k] is Stream),
        propagation(seq![w("SET"@), k, v], reply).len() == 1,
        follower_step(mf, repf, propagation(seq![w("SET"@), k, v], reply)[0], consumed, nowf, mf2, repf2, ack),
    ensures
        propagation(seq![w("SET"@), k, v], reply).len() == 1,
        ack is None,
        spec_get(mf2, k, later) == Ok::<Seq<u8>, StoreError>(v),
{
    crate::commands::lemma_name_literals();
    let ws = seq![w("SET"@), k, v];
    let p = propagation(ws, reply)[0];
    let items = Seq::new(ws.len(), |i: int| ValueView::BulkString(ws[i]));
    assert(p == ValueView::Array(items));
    assert(words_of(p) == Some(ws)) by {
        assert(Seq::new(items.len(), |i: int| crate::commands::string_of(items[i])) =~= ws);
    }
    assert(ws.subrange(1, 3) =~= seq![k, v]);
}

/// In a store, `XRANGE k - +` gives every entry of the stream at `k`, in
/// strictly increasing order of id.
pub proof fn lemma_store_full_range(store: &Store, k: Seq<u8>, now: u64)
    requires
        store.wf(),
        stream_at(store@, k, now) is Some,
    ensures
        in_range(
            stream_at(store@, k, now)->0,
            StreamEntryId { ms: 0, seq: 0 },
            StreamEntryId { ms: u64::MAX, seq: u64::MAX },
        ) == stream_at(store@, k, now)->0,
        forall|i: int, j: int|
            0 <= i < j < stream_at(store@, k, now)->0.len() ==> id_lt(
                #[trigger] stream_at(store@, k, now)->0[i].id,
                #[trigger] stream_at(store@, k, now)->0[j].id,
            ),
{
    store.lemma_wf_view();
    let es = stream_at(store@, k, now)->0;
    if store@.contains_key(k) && store@[k] is Stream {
        assert(stream_ok(es));
    } else {
        assert(es.len() == 0);
    }
    lemma_full_range(es);
}

/// `GET k` after `SET k v [PX px]` at `t0`, as the last write to `k`: the value
/// is there exactly while no expiry is set or `now` has not passed it, and it is
/// `v`; a key never set is absent.
pub proof fn lemma_get_after_set(
    m: Map<Seq<u8>, StoredView>,
    k: Seq<u8>,
    v: Seq<u8>,
    px: Option<u64>,
    t0: u64,
    now: u64,
)
    requires
        !(m.contains_key(k) && m[k] is Stream),
    ensures
        spec_set(m, k, v, px, t0) is Some,
        spec_get(spec_set(m, k, v, px, t0)->0, k, now) is Ok <==> (px is None || now <= expiry(px, t0)->0),
        spec_get(spec_set(m, k, v, px, t0)->0, k, now) is Ok ==> spec_get(spec_set(m, k, v, px, t0)->0, k, now)->Ok_0 == v,
        !m.contains_key(k) ==> spec_get(m, k, now) == Err::<Seq<u8>, StoreError>(StoreError::NotFound),
{
}

/// The arguments of `XREAD BLOCK <zero> STREAMS s t0`.
pub open spec fn block_read_args(zero: Seq<u8>, s: Seq<u8>, t0: Seq<u8>) -> Seq<Seq<u8>> {
    seq![w("BLOCK"@), zero, w("STREAMS"@), s, t0]
}

/// `XREAD BLOCK 0 STREAMS s t0`, where the stream holds nothing above `t0`,
/// reads null and waits; once an entry above `t0` is appended, the read gives
/// exactly that entry.
pub proof fn lemma_blocked_read_wakes_on_append(
    m: Map<Seq<u8>, StoredView>,
    s: Seq<u8>,
    t0: Seq<u8>,
    zero: Seq<u8>,
    id0: StreamEntryId,
    id1: StreamEntryId,
    f: Seq<(Seq<u8>, Seq<u8>)>,
    now: u64,
    waited: u64,
)
    requires
        decimal_field(zero) == Some(0u64),
        read_id(t0) == Some(id0),
        stream_at(m, s, now) is Some,
        forall|i: int|
            0 <= i < stream_at(m, s, now)->0.len() ==> !id_lt(id0, #[trigger] stream_at(m, s, now)->0[i].id),
        id_lt(id0, id1),
    ensures
        xread_reply(m, block_read_args(zero, s, t0), now) == ValueView::NullBulkString,
        xread_block(block_read_args(zero, s, t0)) == Some(0u64),
        xread_next(xread_block(block_read_args(zero, s, t0)), waited, false) == XreadStep::Wait,
        xread_reply(
            m.insert(s, StoredView::Stream(appended(stream_at(m, s, now)->0, id1, f))),
            block_read_args(zero, s, t0),
            now,
        ) == ValueView::Array(
            seq![
                ValueView::Array(
                    seq![ValueView::BulkString(s), entries_value(seq![StreamEntryView { id: id1, fields: f }])],
                ),
            ],
        ),
{
    reveal_strlit("BLOCK");
    reveal_strlit("STREAMS");
    reveal_strlit("block");
    reveal_strlit("streams");
    let a = block_read_args(zero, s, t0);
    let es = stream_at(m, s, now)->0;
    assert(w("BLOCK"@)[0] != w("streams"@)[0]);
    assert(w("BLOCK"@)[0] != w("STREAMS"@)[0]);
    assert(!is_streams(a[0]));
    assert(is_block(a[0]));
    assert(is_streams(a[2]));
    let rest = a.subrange(3, 5);
    assert(rest =~= seq![s, t0]);
    assert(rest.subrange(1, 2) =~= seq![t0]);
    assert(rest.subrange(0, 1) =~= seq![s]);
    let ids = seq![id0];
    assert(crate::commands::parsed_ids(seq![t0]) == Some(ids)) by {
        assert(Seq::new(1, |i: int| read_id(seq![t0][i])->0) =~= ids);
    }
    lemma_read_sees_new_entry(es, id0, id1, f);
    let m2 = m.insert(s, StoredView::Stream(appended(es, id1, f)));
    assert(stream_at(m2, s, now) == Some(appended(es, id1, f)));
    assert(seq![s].drop_last() =~= Seq::<Seq<u8>>::empty());
    assert(ids.drop_last() =~= Seq::<StreamEntryId>::empty());
    assert(crate::commands::xread_items(m, Seq::empty(), Seq::empty(), now) == Some(Seq::<ValueView>::empty()));
    assert(crate::commands::xread_items(m2, Seq::empty(), Seq::empty(), now) == Some(Seq::<ValueView>::empty()));
    assert(seq![s].last() == s && ids.last() == id0);
    assert(crate::commands::xread_items(m, seq![s], ids, now) == Some(Seq::<ValueView>::empty()));
    let item = ValueView::Array(
        seq![ValueView::BulkString(s), entries_value(seq![StreamEntryView { id: id1, fields: f }])],
    );
    assert(crate::commands::xread_items(m2, seq![s], ids, now) == Some(seq![item])) by {
        assert(Seq::<ValueView>::empty().push(item) =~= seq![item]);
    }
}

} // verus!
