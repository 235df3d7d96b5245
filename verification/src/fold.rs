//! What a log of records adds up to: the last record of each id, without the dropped
//! ones, by id.

use vstd::prelude::*;

use crate::model;
use crate::model::{Record, RecordView, Status, Ulid};

verus! {

/// The last record of each id in a log.
pub open spec fn latest(log: Seq<RecordView>) -> Map<Ulid, RecordView>
    decreases log.len(),
{
    if log.len() == 0 {
        Map::empty()
    } else {
        latest(log.drop_last()).insert(log.last().id, log.last())
    }
}

/// The records that are not tombstones.
pub open spec fn living(records: Map<Ulid, RecordView>) -> Map<Ulid, RecordView> {
    Map::new(
        |id: Ulid| records.contains_key(id) && records[id].status != Status::Tombstone,
        |id: Ulid| records[id],
    )
}

/// Whether the records stand by strictly ascending id.
pub open spec fn ascending(records: Seq<RecordView>) -> bool {
    forall|i: int, j: int|
        0 <= i < j < records.len() ==> (#[trigger] records[i]).id.0 < (#[trigger] records[j]).id.0
}

/// Whether `out` is what `log` adds up to: by id, the last record of every id whose last
/// record is no tombstone.
pub open spec fn is_folded(log: Seq<RecordView>, out: Seq<RecordView>) -> bool {
    ascending(out) && latest(out) == living(latest(log))
}

/// An id is known if and only if a record of the log has it.
pub proof fn lemma_latest_known(log: Seq<RecordView>, id: Ulid)
    ensures
        latest(log).contains_key(id) <==> exists|i: int| 0 <= i < log.len() && (#[trigger] log[i]).id == id,
        latest(log).contains_key(id) ==> latest(log)[id].id == id,
        latest(log).dom().finite(),
        latest(log).dom().len() <= log.len(),
    decreases log.len(),
{
    if log.len() > 0 {
        let rest = log.drop_last();
        lemma_latest_known(rest, id);
        if latest(rest).contains_key(id) {
            let i = choose|i: int| 0 <= i < rest.len() && (#[trigger] rest[i]).id == id;
            assert(log[i].id == id);
        }
        assert(log[log.len() - 1] == log.last());
        if exists|i: int| 0 <= i < log.len() && (#[trigger] log[i]).id == id {
            let i = choose|i: int| 0 <= i < log.len() && (#[trigger] log[i]).id == id;
            if i < log.len() - 1 {
                assert(rest[i].id == id);
            }
        }
    }
}

/// In a sequence by ascending id every record is the last one of its id.
pub proof fn lemma_ascending_latest(records: Seq<RecordView>, i: int)
    requires
        ascending(records),
        0 <= i < records.len(),
    ensures
        latest(records).contains_key(records[i].id),
        latest(records)[records[i].id] == records[i],
    decreases records.len(),
{
    if i < records.len() - 1 {
        let rest = records.drop_last();
        assert(ascending(rest));
        lemma_ascending_latest(rest, i);
        assert(rest[i] == records[i]);
        assert(records[i].id.0 < records[records.len() - 1].id.0);
    }
}

/// The last record of a sequence by ascending id has an id of its own.
pub proof fn lemma_fresh_last(records: Seq<RecordView>)
    requires
        ascending(records),
        records.len() > 0,
    ensures
        ascending(records.drop_last()),
        !latest(records.drop_last()).contains_key(records.last().id),
{
    let rest = records.drop_last();
    lemma_latest_known(rest, records.last().id);
    if latest(rest).contains_key(records.last().id) {
        let i = choose|i: int| 0 <= i < rest.len() && (#[trigger] rest[i]).id == records.last().id;
        assert(records[i].id.0 < records[records.len() - 1].id.0);
    }
}

/// A sequence by ascending id is as long as it knows ids.
pub proof fn lemma_ascending_len(records: Seq<RecordView>)
    requires
        ascending(records),
    ensures
        latest(records).dom().finite(),
        latest(records).dom().len() == records.len(),
    decreases records.len(),
{
    if records.len() > 0 {
        lemma_fresh_last(records);
        lemma_ascending_len(records.drop_last());
    }
}

/// Two sequences by ascending id with the same records are the same.
pub proof fn lemma_ascending_unique(a: Seq<RecordView>, b: Seq<RecordView>)
    requires
        ascending(a),
        ascending(b),
        latest(a) == latest(b),
    ensures
        a == b,
    decreases a.len(),
{
    lemma_ascending_len(a);
    lemma_ascending_len(b);
    if a.len() == 0 {
        assert(a =~= b);
    } else {
        lemma_fresh_last(a);
        lemma_fresh_last(b);
        let x = a.last();
        let y = b.last();
        lemma_ascending_latest(a, a.len() - 1);
        lemma_ascending_latest(b, b.len() - 1);
        lemma_latest_known(b, x.id);
        lemma_latest_known(a, y.id);
        let i = choose|i: int| 0 <= i < b.len() && (#[trigger] b[i]).id == x.id;
        let j = choose|j: int| 0 <= j < a.len() && (#[trigger] a[j]).id == y.id;
        assert(i < b.len() - 1 ==> b[i].id.0 < b[b.len() - 1].id.0);
        assert(j < a.len() - 1 ==> a[j].id.0 < a[a.len() - 1].id.0);
        assert(x.id == y.id);
        assert(latest(a.drop_last()) =~= latest(a).remove(x.id));
        assert(latest(b.drop_last()) =~= latest(b).remove(y.id));
        lemma_ascending_unique(a.drop_last(), b.drop_last());
        assert(a =~= a.drop_last().push(x));
        assert(b =~= b.drop_last().push(y));
    }
}

/// A log adds up to only one thing.
pub proof fn lemma_fold_unique(log: Seq<RecordView>, a: Seq<RecordView>, b: Seq<RecordView>)
    requires
        is_folded(log, a),
        is_folded(log, b),
    ensures
        a == b,
{
    lemma_ascending_unique(a, b);
}

/// What a log adds up to, taken as a log, adds up to itself: loading what was compacted
/// gives what loading the log gave.
pub proof fn lemma_fold_idempotent(log: Seq<RecordView>, out: Seq<RecordView>)
    requires
        is_folded(log, out),
    ensures
        is_folded(out, out),
{
    assert(living(living(latest(log))) =~= living(latest(log)));
}

/// What a log adds up to holds no tombstone and no id twice, and every record in it stands
/// in the log.
pub proof fn lemma_fold_holds_survivors(log: Seq<RecordView>, out: Seq<RecordView>, i: int)
    requires
        is_folded(log, out),
        0 <= i < out.len(),
    ensures
        out[i].status != Status::Tombstone,
        latest(log).contains_key(out[i].id),
        latest(log)[out[i].id] == out[i],
        out.len() <= latest(log).dom().len(),
{
    lemma_ascending_latest(out, i);
    lemma_latest_known(log, out[i].id);
    lemma_ascending_len(out);
    assert(latest(out).dom().subset_of(latest(log).dom()));
    vstd::set_lib::lemma_len_subset(latest(out).dom(), latest(log).dom());
}

/// The later of two logs wins.
pub proof fn lemma_latest_append(a: Seq<RecordView>, b: Seq<RecordView>)
    ensures
        latest(a + b) == latest(a).union_prefer_right(latest(b)),
    decreases b.len(),
{
    if b.len() == 0 {
        assert(a + b =~= a);
        assert(latest(a).union_prefer_right(latest(b)) =~= latest(a));
    } else {
        lemma_latest_append(a, b.drop_last());
        assert((a + b).drop_last() =~= a + b.drop_last());
        assert((a + b).last() == b.last());
        assert(latest(a + b) =~= latest(a).union_prefer_right(latest(b)));
    }
}

/// A record that is appended to a log is what the log then says of its id: it is found,
/// or, if it is a tombstone, nothing is. Every other id stays as it was.
pub proof fn lemma_appended_record_wins(
    log: Seq<RecordView>,
    record: RecordView,
    before: Seq<RecordView>,
    after: Seq<RecordView>,
    id: Ulid,
)
    requires
        is_folded(log, before),
        is_folded(log.push(record), after),
    ensures
        record.status != Status::Tombstone ==> latest(after).contains_key(record.id) && latest(
            after,
        )[record.id] == record,
        record.status == Status::Tombstone ==> !latest(after).contains_key(record.id),
        id != record.id ==> latest(after).contains_key(id) == latest(before).contains_key(id),
        id != record.id && latest(after).contains_key(id) ==> latest(after)[id] == latest(
            before,
        )[id],
{
    assert(log.push(record).drop_last() =~= log);
}

#[verifier::spinoff_prover]
#[verifier::rlimit(40)]
proof fn lemma_update(records: Seq<RecordView>, at: int, record: RecordView)
    requires
        ascending(records),
        0 <= at < records.len(),
        records[at].id == record.id,
    ensures
        ascending(records.update(at, record)),
        latest(records.update(at, record)) == latest(records).insert(record.id, record),
{
    let out = records.update(at, record);
    assert(ascending(out)) by {
        assert forall|i: int, j: int| 0 <= i < j < out.len() implies (#[trigger] out[i]).id.0 < (
        #[trigger] out[j]).id.0 by {
            assert(out[i].id == records[i].id);
            assert(out[j].id == records[j].id);
            assert(records[i].id.0 < records[j].id.0);
        }
    }
    let after = latest(out);
    let wanted = latest(records).insert(record.id, record);
    assert forall|id: Ulid|
        #![trigger after.dom().contains(id)]
        #![trigger wanted.dom().contains(id)]
        #![trigger after[id]]
        after.dom().contains(id) == wanted.dom().contains(id) && (after.dom().contains(id)
            ==> after[id] == wanted[id]) by {
        lemma_latest_known(out, id);
        lemma_latest_known(records, id);
        lemma_ascending_latest(out, at);
        if latest(out).contains_key(id) {
            let i = choose|i: int| 0 <= i < out.len() && (#[trigger] out[i]).id == id;
            lemma_ascending_latest(out, i);
            lemma_ascending_latest(records, i);
            assert(records[i].id == id);
            if i != at {
                assert(id != record.id) by {
                    if i < at {
                        assert(records[i].id.0 < records[at].id.0);
                    } else {
                        assert(records[at].id.0 < records[i].id.0);
                    }
                }
            }
        }
        if latest(records).contains_key(id) {
            let i = choose|i: int| 0 <= i < records.len() && (#[trigger] records[i]).id == id;
            assert(out[i].id == id);
        }
    }
    assert(after =~= wanted);
}

#[verifier::spinoff_prover]
#[verifier::rlimit(40)]
proof fn lemma_insert(records: Seq<RecordView>, at: int, record: RecordView)
    requires
        ascending(records),
        0 <= at <= records.len(),
        at > 0 ==> records[at - 1].id.0 < record.id.0,
        at < records.len() ==> record.id.0 < records[at].id.0,
    ensures
        ascending(records.insert(at, record)),
        latest(records.insert(at, record)) == latest(records).insert(record.id, record),
        !latest(records).contains_key(record.id),
{
    let out = records.insert(at, record);
    assert forall|i: int| 0 <= i < records.len() implies (i < at ==> (#[trigger] records[i]).id.0
        < record.id.0) && (i >= at ==> record.id.0 < records[i].id.0) by {
        if i < at - 1 {
            assert(records[i].id.0 < records[at - 1].id.0);
        }
        if i > at {
            assert(records[at].id.0 < records[i].id.0);
        }
    }
    assert(ascending(out)) by {
        assert forall|i: int, j: int| 0 <= i < j < out.len() implies (#[trigger] out[i]).id.0 < (
        #[trigger] out[j]).id.0 by {
            let a = if i < at { i } else { i - 1 };
            let b = if j < at { j } else { j - 1 };
            if i != at {
                assert(out[i] == records[a]);
            }
            if j != at {
                assert(out[j] == records[b]);
            }
        }
    }
    lemma_latest_known(records, record.id);
    assert(out[at] == record);
    lemma_ascending_latest(out, at);
    let after = latest(out);
    let wanted = latest(records).insert(record.id, record);
    assert forall|id: Ulid|
        #![trigger after.dom().contains(id)]
        #![trigger wanted.dom().contains(id)]
        #![trigger after[id]]
        after.dom().contains(id) == wanted.dom().contains(id) && (after.dom().contains(id)
            ==> after[id] == wanted[id]) by {
        lemma_latest_known(out, id);
        lemma_latest_known(records, id);
        if latest(out).contains_key(id) && id != record.id {
            let i = choose|i: int| 0 <= i < out.len() && (#[trigger] out[i]).id == id;
            let a = if i < at { i } else { i - 1 };
            assert(out[i] == records[a]);
            lemma_ascending_latest(out, i);
            lemma_ascending_latest(records, a);
        }
        if latest(records).contains_key(id) {
            let i = choose|i: int| 0 <= i < records.len() && (#[trigger] records[i]).id == id;
            let b = if i < at { i } else { i + 1 };
            assert(out[b] == records[i]);
        }
    }
    assert(after =~= wanted);
}

/// Puts `record` in its place by id, over the one that has its id.
fn upsert(sorted: &mut Vec<Record>, record: Record)
    requires
        ascending(model::record_views(old(sorted)@)),
    ensures
        ascending(model::record_views(final(sorted)@)),
        latest(model::record_views(final(sorted)@)) == latest(
            model::record_views(old(sorted)@),
        ).insert(record.id, record@),
{
    let ghost views = model::record_views(sorted@);
    let mut low: usize = 0;
    let mut high: usize = sorted.len();
    while low < high
        invariant
            sorted@ == old(sorted)@,
            views == model::record_views(sorted@),
            ascending(views),
            low <= high <= sorted@.len(),
            forall|i: int| 0 <= i < low ==> (#[trigger] views[i]).id.0 < record.id.0,
            forall|i: int| high <= i < views.len() ==> record.id.0 <= (#[trigger] views[i]).id.0,
        decreases high - low,
    {
        let mid: usize = low + (high - low) / 2;
        assert(views[mid as int].id == sorted@[mid as int].id);
        if sorted[mid].id.0 < record.id.0 {
            assert forall|i: int| 0 <= i < mid + 1 implies (#[trigger] views[i]).id.0
                < record.id.0 by {
                if i < mid {
                    assert(views[i].id.0 < views[mid as int].id.0);
                }
            }
            low = mid + 1;
        } else {
            assert forall|i: int| mid <= i < views.len() implies record.id.0 <= (
            #[trigger] views[i]).id.0 by {
                if i > mid {
                    assert(views[mid as int].id.0 < views[i].id.0);
                }
            }
            high = mid;
        }
    }
    proof {
        if low < views.len() {
            assert(views[low as int].id == sorted@[low as int].id);
        }
    }
    if low < sorted.len() && sorted[low].id.0 == record.id.0 {
        proof {
            lemma_update(views, low as int, record@);
        }
        sorted.set(low, record);
        assert(model::record_views(sorted@) =~= views.update(low as int, record@));
    } else {
        proof {
            lemma_insert(views, low as int, record@);
        }
        sorted.insert(low, record);
        assert(model::record_views(sorted@) =~= views.insert(low as int, record@));
    }
}

/// The last record of each id in a log, by id.
pub fn last_records(raw: Vec<Record>) -> (out: Vec<Record>)
    ensures
        ascending(model::record_views(out@)),
        latest(model::record_views(out@)) == latest(model::record_views(raw@)),
{
    let ghost views = model::record_views(raw@);
    let mut out: Vec<Record> = Vec::new();
    assert(latest(model::record_views(out@)) =~= latest(views.take(0)));
    for record in it: raw
        invariant
            it.seq() == raw@,
            views == model::record_views(raw@),
            ascending(model::record_views(out@)),
            latest(model::record_views(out@)) == latest(views.take(it.index() as int)),
    {
        proof {
            let head = views.take(it.index() + 1);
            assert(head.drop_last() =~= views.take(it.index() as int));
            assert(head.last() == record@);
        }
        upsert(&mut out, record);
    }
    assert(views.take(views.len() as int) =~= views);
    out
}

/// The records that are not tombstones.
pub fn drop_tombstones(sorted: Vec<Record>) -> (out: Vec<Record>)
    requires
        ascending(model::record_views(sorted@)),
    ensures
        ascending(model::record_views(out@)),
        latest(model::record_views(out@)) == living(latest(model::record_views(sorted@))),
        out@.len() <= sorted@.len(),
{
    let ghost views = model::record_views(sorted@);
    let mut out: Vec<Record> = Vec::new();
    assert(latest(model::record_views(out@)) =~= living(latest(views.take(0))));
    for record in it: sorted
        invariant
            it.seq() == sorted@,
            views == model::record_views(sorted@),
            ascending(views),
            ascending(model::record_views(out@)),
            latest(model::record_views(out@)) == living(latest(views.take(it.index() as int))),
            out@.len() <= it.index(),
            forall|i: int|
                #![trigger out@[i]]
                0 <= i < out@.len() && it.index() < views.len() ==> out@[i].id.0
                    < views[it.index() as int].id.0,
    {
        let ghost n = it.index() as int;
        let ghost before = model::record_views(out@);
        let ghost head = views.take(n + 1);
        proof {
            assert(head.drop_last() =~= views.take(n));
            assert(head.last() == record@);
            assert(ascending(head));
            lemma_fresh_last(head);
        }
        if record.status != Status::Tombstone {
            out.push(record);
            proof {
                assert(model::record_views(out@) =~= before.push(record@));
                assert(before.push(record@).drop_last() =~= before);
                assert(latest(model::record_views(out@)) =~= living(latest(head)));
                assert forall|i: int, j: int|
                    0 <= i < j < before.push(record@).len() implies (#[trigger] before.push(
                    record@,
                )[i]).id.0 < (#[trigger] before.push(record@)[j]).id.0 by {
                    assert(before.push(record@)[i].id == out@[i].id);
                }
            }
        } else {
            assert(latest(model::record_views(out@)) =~= living(latest(head)));
        }
        proof {
            assert forall|i: int|
                #![trigger out@[i]]
                0 <= i < out@.len() && n + 1 < views.len() implies out@[i].id.0 < views[n
                + 1].id.0 by {
                assert(views[n].id.0 < views[n + 1].id.0);
                assert(views[n] == record@);
            }
        }
    }
    assert(views.take(views.len() as int) =~= views);
    out
}

/// What a log adds up to: last record per id wins, ids whose winner is a tombstone are
/// removed, orphaned records are kept, sorted by id ascending.
pub fn fold_last_wins(raw: Vec<Record>) -> (out: Vec<Record>)
    ensures
        is_folded(model::record_views(raw@), model::record_views(out@)),
{
    let sorted = last_records(raw);
    drop_tombstones(sorted)
}

/// The record that a log holds under `id`, if its last one is no tombstone.
pub fn find_in_log(raw: &Vec<Record>, id: Ulid) -> (found: Option<Record>)
    ensures
        ({
            let survivors = living(latest(model::record_views(raw@)));
            match found {
                Some(record) => survivors.contains_key(id) && survivors[id] == record@,
                None => !survivors.contains_key(id),
            }
        }),
{
    let ghost views = model::record_views(raw@);
    let mut i: usize = raw.len();
    assert(views.take(i as int) =~= views);
    while i > 0
        invariant
            i <= raw@.len(),
            views == model::record_views(raw@),
            latest(views).contains_key(id) == latest(views.take(i as int)).contains_key(id),
            latest(views).contains_key(id) ==> latest(views)[id] == latest(
                views.take(i as int),
            )[id],
        decreases i,
    {
        proof {
            let head = views.take(i as int);
            assert(head.drop_last() =~= views.take(i - 1));
            assert(head.last() == raw@[i - 1]@);
        }
        if raw[i - 1].id == id {
            let record = &raw[i - 1];
            return if record.status == Status::Tombstone {
                None
            } else {
                Some(record.clone())
            };
        }
        i -= 1;
    }
    None
}

/// Where the last record of an id stands in a log.
proof fn lemma_latest_at(log: Seq<RecordView>, id: Ulid) -> (i: int)
    requires
        latest(log).contains_key(id),
    ensures
        0 <= i < log.len(),
        log[i].id == id,
        latest(log)[id] == log[i],
        forall|j: int| i < j < log.len() ==> (#[trigger] log[j]).id != id,
    decreases log.len(),
{
    if log.last().id == id {
        log.len() - 1
    } else {
        let rest = log.drop_last();
        let i = lemma_latest_at(rest, id);
        assert forall|j: int| i < j < log.len() implies (#[trigger] log[j]).id != id by {
            if j < rest.len() {
                assert(rest[j] == log[j]);
            }
        }
        i
    }
}

proof fn lemma_last_is_latest(log: Seq<RecordView>, i: int)
    requires
        0 <= i < log.len(),
        forall|j: int| i < j < log.len() ==> (#[trigger] log[j]).id != log[i].id,
    ensures
        latest(log).contains_key(log[i].id),
        latest(log)[log[i].id] == log[i],
    decreases log.len(),
{
    if i < log.len() - 1 {
        let rest = log.drop_last();
        assert forall|j: int| i < j < rest.len() implies (#[trigger] rest[j]).id != rest[i].id by {
            assert(rest[j] == log[j]);
        }
        lemma_last_is_latest(rest, i);
        assert(log[log.len() - 1].id != log[i].id);
    }
}

/// Whether no record behind the one at `i` has its id.
pub open spec fn is_last(log: Seq<RecordView>, i: int) -> bool {
    0 <= i < log.len() && forall|j: int| i < j < log.len() ==> (#[trigger] log[j]).id != log[i].id
}

/// What a log adds up to are exactly the records that no later record of the log has the id
/// of, without the tombstones among them, by strictly ascending id.
pub proof fn lemma_fold_keeps_the_last(log: Seq<RecordView>, out: Seq<RecordView>)
    requires
        is_folded(log, out),
    ensures
        forall|i: int, j: int|
            0 <= i < j < out.len() ==> (#[trigger] out[i]).id.0 < (#[trigger] out[j]).id.0,
        forall|k: int|
            0 <= k < out.len() ==> (#[trigger] out[k]).status != Status::Tombstone && exists|i: int|
                #[trigger] is_last(log, i) && log[i] == out[k],
        forall|i: int| #[trigger]
            is_last(log, i) && log[i].status != Status::Tombstone ==> out.contains(log[i]),
{
    assert forall|k: int| 0 <= k < out.len() implies (#[trigger] out[k]).status
        != Status::Tombstone && exists|i: int| #[trigger] is_last(log, i) && log[i] == out[k] by {
        lemma_fold_holds_survivors(log, out, k);
        let i = lemma_latest_at(log, out[k].id);
        assert(is_last(log, i));
    }
    assert forall|i: int| #[trigger]
        is_last(log, i) && log[i].status != Status::Tombstone implies out.contains(log[i]) by {
        lemma_last_is_latest(log, i);
        let id = log[i].id;
        assert(living(latest(log)).contains_key(id));
        assert(latest(out).contains_key(id));
        let k = lemma_latest_at(out, id);
        assert(out[k] == log[i]);
    }
}

/// A log holds a record under an id if and only if the last record of that id in it is no
/// tombstone, and then it holds that one.
pub proof fn lemma_log_holds_the_last(log: Seq<RecordView>, id: Ulid)
    ensures
        living(latest(log)).contains_key(id) ==> living(latest(log))[id].status
            != Status::Tombstone && exists|i: int| #[trigger]
            is_last(log, i) && log[i] == living(latest(log))[id] && log[i].id == id,
        !living(latest(log)).contains_key(id) ==> forall|i: int| #[trigger]
            is_last(log, i) && log[i].id == id ==> log[i].status == Status::Tombstone,
{
    if living(latest(log)).contains_key(id) {
        let i = lemma_latest_at(log, id);
        assert(is_last(log, i));
    } else {
        assert forall|i: int| #[trigger] is_last(log, i) && log[i].id == id implies log[i].status
            == Status::Tombstone by {
            lemma_last_is_latest(log, i);
        }
    }
}

/// The ids that a log knows are those of its records.
pub proof fn lemma_known_ids(log: Seq<RecordView>)
    ensures
        latest(log).dom() == log.map_values(|r: RecordView| r.id).to_set(),
{
    let ids = log.map_values(|r: RecordView| r.id);
    assert forall|id: Ulid| latest(log).dom().contains(id) == ids.to_set().contains(id) by {
        lemma_latest_known(log, id);
        if latest(log).contains_key(id) {
            let i = choose|i: int| 0 <= i < log.len() && (#[trigger] log[i]).id == id;
            assert(ids[i] == id);
        }
        if ids.contains(id) {
            let i = choose|i: int| 0 <= i < ids.len() && ids[i] == id;
            assert(log[i].id == id);
        }
    }
    assert(latest(log).dom() =~= ids.to_set());
}

} // verus!
