use vstd::prelude::*;

use crate::sessions::{
    begun, compacted, encode_log, encode_rec, header_bytes, lemma_header_round_trip,
    parse, split_samples, lemma_split_rest_shorter, SessionRec, END_OF_SESSION,
};

verus! {

/// No sample of any session is the terminator value.
pub open spec fn clean(recs: Seq<SessionRec>) -> bool {
    forall|i: int, j: int|
        0 <= i < recs.len() && 0 <= j < recs[i].temperatures.len()
            ==> recs[i].temperatures[j] != END_OF_SESSION
}

/// The session with one more sample at its end.
pub open spec fn with_sample(r: SessionRec, v: u8) -> SessionRec {
    SessionRec { start_at: r.start_at, temperatures: r.temperatures.push(v) }
}

/// A fresh session with no sample yet.
pub open spec fn fresh(t: u64) -> SessionRec {
    SessionRec { start_at: t, temperatures: seq![] }
}

/// One call on the log: a session begun at a time, or a sample added.
pub enum LogOp {
    Begin(u64),
    Sample(u8),
}

/// The log that a run of calls writes, starting from an empty log.
pub open spec fn replay(ops: Seq<LogOp>) -> Seq<u8>
    decreases ops.len(),
{
    if ops.len() == 0 {
        seq![]
    } else {
        let b = replay(ops.drop_last());
        match ops.last() {
            LogOp::Begin(t) => begun(b, t),
            LogOp::Sample(v) => b.push(v),
        }
    }
}

/// The sessions that a run of calls records: each begin opens a session, each
/// sample joins the session begun last.
pub open spec fn recorded(ops: Seq<LogOp>) -> Seq<SessionRec>
    decreases ops.len(),
{
    if ops.len() == 0 {
        seq![]
    } else {
        let prev = recorded(ops.drop_last());
        match ops.last() {
            LogOp::Begin(t) => prev.push(fresh(t)),
            LogOp::Sample(v) => if prev.len() == 0 {
                prev
            } else {
                prev.update(prev.len() - 1, with_sample(prev.last(), v))
            },
        }
    }
}

/// A run that starts with a begin and never adds the terminator value.
pub open spec fn valid_run(ops: Seq<LogOp>) -> bool {
    &&& ops.len() > 0 ==> ops[0] is Begin
    &&& forall|i: int| 0 <= i < ops.len() ==> ops[i] != LogOp::Sample(END_OF_SESSION)
}

/// The log after the samples are added one by one.
pub open spec fn appended(b: Seq<u8>, samples: Seq<u8>) -> Seq<u8>
    decreases samples.len(),
{
    if samples.len() == 0 {
        b
    } else {
        appended(b, samples.drop_last()).push(samples.last())
    }
}

proof fn lemma_split_clean(t: Seq<u8>, rest: Seq<u8>)
    requires
        forall|j: int| 0 <= j < t.len() ==> t[j] != END_OF_SESSION,
    ensures
        split_samples(t.push(END_OF_SESSION) + rest) == (t, rest),
        split_samples(t) == (t, Seq::<u8>::empty()),
    decreases t.len(),
{
    let s = t.push(END_OF_SESSION) + rest;
    if t.len() == 0 {
        assert(s.drop_first() =~= rest);
    } else {
        lemma_split_clean(t.drop_first(), rest);
        assert(s.drop_first() =~= t.drop_first().push(END_OF_SESSION) + rest);
        assert(seq![t[0]] + t.drop_first() =~= t);
    }
}

proof fn lemma_encode_front(recs: Seq<SessionRec>)
    requires
        recs.len() >= 2,
    ensures
        encode_log(recs) == encode_rec(recs[0]).push(END_OF_SESSION) + encode_log(
            recs.drop_first(),
        ),
    decreases recs.len(),
{
    let tail = recs.drop_first();
    if recs.len() == 2 {
        assert(encode_log(recs.drop_last()) == encode_rec(recs[0]));
        assert(encode_log(tail) == encode_rec(recs[1]));
        assert(recs.last() == recs[1]);
    } else {
        lemma_encode_front(recs.drop_last());
        assert(recs.drop_last().drop_first() =~= tail.drop_last());
        assert(encode_log(recs) =~= encode_rec(recs[0]).push(END_OF_SESSION) + encode_log(tail));
    }
}

/// A log written from sessions whose samples avoid the terminator scans back
/// to exactly those sessions.
pub proof fn lemma_parse_encode(recs: Seq<SessionRec>)
    requires
        clean(recs),
    ensures
        parse(encode_log(recs)) == recs,
    decreases recs.len(),
{
    if recs.len() > 0 {
        let r = recs[0];
        let b = encode_log(recs);
        assert(forall|j: int|
            0 <= j < r.temperatures.len() ==> r.temperatures[j] != END_OF_SESSION) by {
            assert(forall|j: int|
                0 <= j < r.temperatures.len() ==> recs[0].temperatures[j] != END_OF_SESSION);
        }
        lemma_header_round_trip(r.start_at);
        if recs.len() == 1 {
            lemma_split_clean(r.temperatures, seq![]);
            assert(b.subrange(8, b.len() as int) =~= r.temperatures);
            assert(b.subrange(0, 8) =~= header_bytes(r.start_at));
            assert(parse(Seq::<u8>::empty()) =~= Seq::<SessionRec>::empty());
            assert(recs =~= seq![r]);
        } else {
            let tail = recs.drop_first();
            lemma_encode_front(recs);
            assert(clean(tail)) by {
                assert(forall|i: int| 0 <= i < tail.len() ==> tail[i] == recs[i + 1]);
            }
            lemma_parse_encode(tail);
            lemma_split_clean(r.temperatures, encode_log(tail));
            assert(b.subrange(8, b.len() as int) =~= r.temperatures.push(END_OF_SESSION)
                + encode_log(tail));
            assert(b.subrange(0, 8) =~= header_bytes(r.start_at));
            assert(seq![r] + tail =~= recs);
        }
    }
}

proof fn lemma_begin_encodes(recs: Seq<SessionRec>, t: u64)
    ensures
        begun(encode_log(recs), t) == encode_log(recs.push(fresh(t))),
{
    let n = recs.push(fresh(t));
    assert(encode_rec(fresh(t)) =~= header_bytes(t));
    if recs.len() == 0 {
        assert(encode_log(recs) =~= Seq::<u8>::empty());
    } else {
        assert(n.drop_last() =~= recs);
        assert(encode_log(recs).len() > 0) by {
            if recs.len() == 1 {
            } else {
                assert(encode_log(recs) == encode_log(recs.drop_last()).push(END_OF_SESSION)
                    + encode_rec(recs.last()));
            }
        }
    }
}

proof fn lemma_sample_encodes(recs: Seq<SessionRec>, v: u8)
    requires
        recs.len() > 0,
    ensures
        encode_log(recs).push(v) == encode_log(
            recs.update(recs.len() - 1, with_sample(recs.last(), v)),
        ),
{
    let n = recs.update(recs.len() - 1, with_sample(recs.last(), v));
    assert(encode_rec(with_sample(recs.last(), v)) =~= encode_rec(recs.last()).push(v));
    if recs.len() > 1 {
        assert(n.drop_last() =~= recs.drop_last());
        assert(encode_log(recs).push(v) =~= encode_log(n));
    }
}

proof fn lemma_replay_encodes(ops: Seq<LogOp>)
    requires
        valid_run(ops),
    ensures
        replay(ops) == encode_log(recorded(ops)),
        clean(recorded(ops)),
        ops.len() > 0 ==> recorded(ops).len() > 0,
    decreases ops.len(),
{
    if ops.len() > 0 {
        let prev = ops.drop_last();
        assert(valid_run(prev)) by {
            assert(forall|i: int| 0 <= i < prev.len() ==> prev[i] == ops[i]);
        }
        lemma_replay_encodes(prev);
        let rp = recorded(prev);
        match ops.last() {
            LogOp::Begin(t) => {
                lemma_begin_encodes(rp, t);
                let rn = rp.push(fresh(t));
                assert(clean(rn)) by {
                    assert(forall|i: int| 0 <= i < rp.len() ==> rn[i] == rp[i]);
                }
            },
            LogOp::Sample(v) => {
                if ops.len() == 1 {
                    assert(ops[0] is Begin);
                } else {
                    assert(v != END_OF_SESSION) by {
                        assert(ops[ops.len() - 1] != LogOp::Sample(END_OF_SESSION));
                    }
                    lemma_sample_encodes(rp, v);
                    let rn = rp.update(rp.len() - 1, with_sample(rp.last(), v));
                    assert(clean(rn)) by {
                        assert forall|i: int, j: int|
                            0 <= i < rn.len() && 0 <= j < rn[i].temperatures.len() implies
                            rn[i].temperatures[j] != END_OF_SESSION by {
                            if i == rn.len() - 1 && j == rp.last().temperatures.len() {
                            } else if i == rn.len() - 1 {
                                assert(rn[i].temperatures[j] == rp[i].temperatures[j]);
                            }
                        }
                    }
                }
            },
        }
    }
}

/// Any run of begins and samples (the terminator value never among the
/// samples) writes a log that scans back to exactly the sessions recorded:
/// their start times and their samples, in order.
pub proof fn lemma_round_trip(ops: Seq<LogOp>)
    requires
        valid_run(ops),
    ensures
        parse(replay(ops)) == recorded(ops),
{
    lemma_replay_encodes(ops);
    lemma_parse_encode(recorded(ops));
}


proof fn lemma_appended(b: Seq<u8>, samples: Seq<u8>)
    ensures
        appended(b, samples) == b + samples,
    decreases samples.len(),
{
    if samples.len() > 0 {
        lemma_appended(b, samples.drop_last());
        assert(b + samples =~= (b + samples.drop_last()).push(samples.last()));
    }
}

/// After a session begins at `t` on a log written from clean sessions `recs`,
/// and the samples are added one by one (none the terminator value), the last
/// session scanned is the one begun, with exactly those samples.
pub proof fn lemma_open_record_visible(recs: Seq<SessionRec>, t: u64, samples: Seq<u8>)
    requires
        clean(recs),
        forall|j: int| 0 <= j < samples.len() ==> samples[j] != END_OF_SESSION,
    ensures
        parse(appended(begun(encode_log(recs), t), samples)) == recs.push(
            (SessionRec { start_at: t, temperatures: samples }),
        ),
        parse(appended(begun(encode_log(recs), t), samples)).last() == (SessionRec {
            start_at: t,
            temperatures: samples,
        }),
{
    let r = SessionRec { start_at: t, temperatures: samples };
    let n = recs.push(r);
    lemma_appended(begun(encode_log(recs), t), samples);
    lemma_begin_encodes(recs, t);
    assert(encode_rec(r) =~= encode_rec(fresh(t)) + samples);
    if recs.len() > 0 {
        assert(n.drop_last() =~= recs);
        assert(recs.push(fresh(t)).drop_last() =~= recs);
    }
    assert(encode_log(n) =~= encode_log(recs.push(fresh(t))) + samples);
    assert(clean(n)) by {
        assert(forall|i: int| 0 <= i < recs.len() ==> n[i] == recs[i]);
    }
    lemma_parse_encode(n);
}

proof fn lemma_split_samples_clean(s: Seq<u8>)
    ensures
        forall|j: int|
            0 <= j < split_samples(s).0.len() ==> split_samples(s).0[j] != END_OF_SESSION,
    decreases s.len(),
{
    if s.len() > 0 && s[0] != END_OF_SESSION {
        lemma_split_samples_clean(s.drop_first());
        let t = split_samples(s.drop_first()).0;
        assert forall|j: int| 0 < j < 1 + t.len() implies (seq![s[0]] + t)[j]
            != END_OF_SESSION by {
            assert((seq![s[0]] + t)[j] == t[j - 1]);
        }
    }
}

/// No session that a scan finds holds the terminator value as a sample.
pub proof fn lemma_parse_clean(b: Seq<u8>)
    ensures
        clean(parse(b)),
    decreases b.len(),
{
    if b.len() >= 8 {
        let body = b.subrange(8, b.len() as int);
        let rest = split_samples(body).1;
        lemma_split_rest_shorter(body);
        lemma_split_samples_clean(body);
        lemma_parse_clean(rest);
        let p = parse(b);
        assert forall|i: int, j: int|
            0 <= i < p.len() && 0 <= j < p[i].temperatures.len() implies p[i].temperatures[j]
            != END_OF_SESSION by {
            if i > 0 {
                assert(p[i] == parse(rest)[i - 1]);
            }
        }
    }
}

/// Compaction of a log in which some session is found leaves exactly the last
/// of them, unchanged; it stays open, so a sample added next joins it.
pub proof fn lemma_compaction_keeps_tail(b: Seq<u8>, v: u8)
    requires
        parse(b).len() > 0,
        v != END_OF_SESSION,
    ensures
        parse(compacted(b)) == seq![parse(b).last()],
        parse(compacted(b).push(v)) == seq![with_sample(parse(b).last(), v)],
{
    let last = parse(b).last();
    lemma_parse_clean(b);
    let one = seq![last];
    assert(clean(one)) by {
        assert(one[0] == parse(b)[parse(b).len() - 1]);
    }
    assert(encode_log(one) == encode_rec(last));
    lemma_parse_encode(one);
    lemma_sample_encodes(one, v);
    let two = one.update(0, with_sample(last, v));
    assert(two =~= seq![with_sample(last, v)]);
    assert(clean(two)) by {
        assert forall|j: int| 0 <= j < two[0].temperatures.len() implies two[0].temperatures[j]
            != END_OF_SESSION by {
            if j < last.temperatures.len() {
                assert(two[0].temperatures[j] == one[0].temperatures[j]);
            }
        }
    }
    lemma_parse_encode(two);
}

/// Two sessions begun one after the other, on a log written from clean
/// sessions, leave the first of them closed with no sample.
pub proof fn lemma_zero_sample_session(recs: Seq<SessionRec>, t1: u64, t2: u64)
    requires
        clean(recs),
    ensures
        parse(begun(begun(encode_log(recs), t1), t2)) == recs.push(fresh(t1)).push(fresh(t2)),
        parse(begun(begun(encode_log(recs), t1), t2))[recs.len() as int] == fresh(t1),
{
    let n1 = recs.push(fresh(t1));
    let n2 = n1.push(fresh(t2));
    lemma_begin_encodes(recs, t1);
    lemma_begin_encodes(n1, t2);
    assert(clean(n2)) by {
        assert(forall|i: int| 0 <= i < recs.len() ==> n2[i] == recs[i]);
        assert(n2[recs.len() as int] == fresh(t1));
    }
    lemma_parse_encode(n2);
}

} // verus!
