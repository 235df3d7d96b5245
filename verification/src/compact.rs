//! Compacting logs: what is kept, what is counted, and how the files are rewritten.

use vstd::prelude::*;

use std::time::Duration;

use vstd::string::StringExecFns;

use crate::fold;
use crate::fold::{drop_tombstones, last_records};
use crate::log::log_text;
use crate::model;
use crate::model::{Record, RecordView};
use crate::path;
use crate::path::{clone_bytes, Component, Part, TreePath};
use crate::segments;
use crate::store;
use crate::store::{Store, StoreError};
use crate::text;
use crate::text::push_decimal;

verus! {

broadcast use vstd::string::group_string_axioms;

/// Tuning knobs for exclusive-lock acquisition during compaction.
#[derive(Debug, Clone, Copy)]
pub struct CompactOptions {
    /// How often the lock is tried for.
    pub lock_retries: u32,
    /// The pause between two tries.
    pub lock_backoff: Duration,
}

/// The span of so many milliseconds.
pub uninterp spec fn span_of_millis(millis: u64) -> Duration;

/// `Duration::from_millis`: the span of the given number of milliseconds, which depends on
/// that number alone. A span has no other form here, so how long it is stays unsaid.
pub assume_specification[ Duration::from_millis ](millis: u64) -> (span: Duration)
    ensures
        span == span_of_millis(millis),
;

impl Default for CompactOptions {
    fn default() -> (opts: CompactOptions)
        ensures
            opts.lock_retries == 40,
            opts.lock_backoff == span_of_millis(50),
    {
        CompactOptions { lock_retries: 40, lock_backoff: Duration::from_millis(50) }
    }
}

/// Outcome of a compaction pass, aggregate across files for `compact_all`.
#[derive(Debug, Clone, Copy, PartialEq, Eq, Structural)]
pub struct CompactStats {
    pub files_compacted: usize,
    pub files_removed: usize,
    pub files_skipped: usize,
    pub records_before: usize,
    pub records_after: usize,
    pub duplicates_merged: usize,
    pub tombstones_dropped: usize,
}

/// What is counted, without bounds.
pub struct Counts {
    pub files_compacted: int,
    pub files_removed: int,
    pub files_skipped: int,
    pub records_before: int,
    pub records_after: int,
    pub duplicates_merged: int,
    pub tombstones_dropped: int,
}

impl View for CompactStats {
    type V = Counts;

    open spec fn view(&self) -> Counts {
        Counts {
            files_compacted: self.files_compacted as int,
            files_removed: self.files_removed as int,
            files_skipped: self.files_skipped as int,
            records_before: self.records_before as int,
            records_after: self.records_after as int,
            duplicates_merged: self.duplicates_merged as int,
            tombstones_dropped: self.tombstones_dropped as int,
        }
    }
}

/// Nothing was counted.
pub open spec fn no_counts() -> Counts {
    Counts {
        files_compacted: 0,
        files_removed: 0,
        files_skipped: 0,
        records_before: 0,
        records_after: 0,
        duplicates_merged: 0,
        tombstones_dropped: 0,
    }
}

/// Both counts together.
pub open spec fn both_counts(a: Counts, b: Counts) -> Counts {
    Counts {
        files_compacted: a.files_compacted + b.files_compacted,
        files_removed: a.files_removed + b.files_removed,
        files_skipped: a.files_skipped + b.files_skipped,
        records_before: a.records_before + b.records_before,
        records_after: a.records_after + b.records_after,
        duplicates_merged: a.duplicates_merged + b.duplicates_merged,
        tombstones_dropped: a.tombstones_dropped + b.tombstones_dropped,
    }
}

/// Whether the machine can hold the counts.
pub open spec fn countable(c: Counts) -> bool {
    &&& c.files_compacted <= usize::MAX
    &&& c.files_removed <= usize::MAX
    &&& c.files_skipped <= usize::MAX
    &&& c.records_before <= usize::MAX
    &&& c.records_after <= usize::MAX
    &&& c.duplicates_merged <= usize::MAX
    &&& c.tombstones_dropped <= usize::MAX
}

impl Default for CompactStats {
    fn default() -> (stats: CompactStats)
        ensures
            stats@ == no_counts(),
    {
        CompactStats {
            files_compacted: 0,
            files_removed: 0,
            files_skipped: 0,
            records_before: 0,
            records_after: 0,
            duplicates_merged: 0,
            tombstones_dropped: 0,
        }
    }
}

impl CompactStats {
    /// Accumulates `other` into `self`, field by field.
    pub fn absorb(&mut self, other: CompactStats)
        requires
            countable(both_counts(old(self)@, other@)),
        ensures
            final(self)@ == both_counts(old(self)@, other@),
    {
        self.files_compacted += other.files_compacted;
        self.files_removed += other.files_removed;
        self.files_skipped += other.files_skipped;
        self.records_before += other.records_before;
        self.records_after += other.records_after;
        self.duplicates_merged += other.duplicates_merged;
        self.tombstones_dropped += other.tombstones_dropped;
    }
}

/// What compacting does to the file of a log.
#[derive(Debug)]
pub enum MirrorChange {
    /// There is no file.
    Missing,
    /// Nothing is left: the file goes.
    Remove,
    /// The file holds these records from now on.
    Rewrite(Vec<Record>),
}

/// What compacting a log counts when `survivors` are left of it.
pub open spec fn log_counts(log: Seq<RecordView>, survivors: Seq<RecordView>) -> Counts {
    let winners = fold::latest(log).dom().len() as int;
    Counts {
        files_compacted: 1,
        files_removed: if survivors.len() == 0 { 1 } else { 0 },
        files_skipped: 0,
        records_before: log.len() as int,
        records_after: survivors.len() as int,
        duplicates_merged: log.len() - winners,
        tombstones_dropped: winners - survivors.len(),
    }
}

/// Every record of a compacted log is accounted for.
pub proof fn lemma_counts_add_up(log: Seq<RecordView>, survivors: Seq<RecordView>)
    requires
        fold::is_folded(log, survivors),
    ensures
        ({
            let c = log_counts(log, survivors);
            &&& c.records_before == c.records_after + c.duplicates_merged + c.tombstones_dropped
            &&& c.duplicates_merged >= 0
            &&& c.tombstones_dropped >= 0
        }),
{
    lemma_winners(log, survivors);
}

proof fn lemma_winners(log: Seq<RecordView>, survivors: Seq<RecordView>)
    requires
        fold::is_folded(log, survivors),
    ensures
        survivors.len() <= fold::latest(log).dom().len() <= log.len(),
        fold::latest(log).dom().finite(),
{
    fold::lemma_latest_known(log, crate::model::Ulid(0));
    if survivors.len() > 0 {
        fold::lemma_fold_holds_survivors(log, survivors, 0);
    }
}

/// Compacting what was compacted changes nothing and finds nothing to merge or drop.
pub proof fn lemma_compact_twice(log: Seq<RecordView>, survivors: Seq<RecordView>)
    requires
        fold::is_folded(log, survivors),
    ensures
        fold::is_folded(survivors, survivors),
        log_counts(survivors, survivors).duplicates_merged == 0,
        log_counts(survivors, survivors).tombstones_dropped == 0,
        log_counts(survivors, survivors).records_before == survivors.len(),
        log_counts(survivors, survivors).records_after == survivors.len(),
{
    fold::lemma_fold_idempotent(log, survivors);
    fold::lemma_ascending_len(survivors);
}

/// How far the results of compacting one file after the other were added up: the total,
/// or the place of the first one that ended the work. A malformed log is skipped.
pub open spec fn added_up(results: Seq<Result<CompactStats, StoreError>>) -> Result<Counts, int>
    decreases results.len(),
{
    if results.len() == 0 {
        Ok(no_counts())
    } else {
        match added_up(results.drop_last()) {
            Err(at) => Err(at),
            Ok(total) => match results.last() {
                Ok(stats) => Ok(both_counts(total, stats@)),
                Err(StoreError::MalformedLine { .. }) => Ok(
                    Counts { files_skipped: total.files_skipped + 1, ..total },
                ),
                Err(_) => Err(results.len() - 1),
            },
        }
    }
}

/// Whether the result of compacting one file ends the work. A malformed log does not: it is
/// skipped.
pub fn ends_compaction(result: &Result<CompactStats, StoreError>) -> (yes: bool)
    ensures
        yes == (result matches Err(e) && !(e is MalformedLine)),
{
    match result {
        Ok(_) => false,
        Err(StoreError::MalformedLine { .. }) => false,
        Err(_) => true,
    }
}

/// Adding up stops at the first result that ends the work, and nowhere else.
pub proof fn lemma_added_up_stops(results: Seq<Result<CompactStats, StoreError>>)
    ensures
        match added_up(results) {
            Ok(_) => forall|i: int|
                0 <= i < results.len() ==> ((#[trigger] results[i]) matches Err(e)
                    ==> e is MalformedLine),
            Err(at) => {
                &&& 0 <= at < results.len()
                &&& results[at] matches Err(e) && !(e is MalformedLine)
                &&& forall|i: int|
                    0 <= i < at ==> ((#[trigger] results[i]) matches Err(e) ==> e is MalformedLine)
            },
        },
    decreases results.len(),
{
    if results.len() > 0 {
        lemma_added_up_stops(results.drop_last());
        assert forall|i: int| 0 <= i < results.len() - 1 implies results.drop_last()[i]
            == #[trigger] results[i] by {}
    }
}

proof fn lemma_added_up_err(results: Seq<Result<CompactStats, StoreError>>, n: int)
    requires
        0 <= n <= results.len(),
        added_up(results.take(n)) is Err,
    ensures
        added_up(results) == added_up(results.take(n)),
    decreases results.len() - n,
{
    if n == results.len() {
        assert(results.take(n) =~= results);
    } else {
        assert(results.take(n + 1).drop_last() =~= results.take(n));
        lemma_added_up_err(results, n + 1);
    }
}

impl Store {
    /// Compacts one log: what is counted, and what becomes of its file. `None` stands for a
    /// file that does not exist.
    pub fn compact_file(&self, raw: Option<Vec<Record>>) -> (out: (CompactStats, MirrorChange))
        ensures
            match raw {
                None => out.0@ == no_counts() && out.1 is Missing,
                Some(log) => exists|survivors: Seq<RecordView>| #[trigger]
                    fold::is_folded(model::record_views(log@), survivors) && out.0@ == log_counts(
                        model::record_views(log@),
                        survivors,
                    ) && match out.1 {
                        MirrorChange::Missing => false,
                        MirrorChange::Remove => survivors.len() == 0,
                        MirrorChange::Rewrite(kept) => survivors.len() > 0 && model::record_views(
                            kept@,
                        ) == survivors,
                    },
            },
    {
        match raw {
            None => (CompactStats::default(), MirrorChange::Missing),
            Some(log) => {
                let before: usize = log.len();
                let ghost views = model::record_views(log@);
                let winners = last_records(log);
                let merged: usize = winners.len();
                proof {
                    fold::lemma_ascending_len(model::record_views(winners@));
                    fold::lemma_latest_known(views, crate::model::Ulid(0));
                }
                let survivors = drop_tombstones(winners);
                let after: usize = survivors.len();
                let ghost kept = model::record_views(survivors@);
                let stats = CompactStats {
                    files_compacted: 1,
                    files_removed: if after == 0 {
                        1
                    } else {
                        0
                    },
                    files_skipped: 0,
                    records_before: before,
                    records_after: after,
                    duplicates_merged: before - merged,
                    tombstones_dropped: merged - after,
                };
                assert(fold::is_folded(views, kept));
                assert(stats@ == log_counts(views, kept));
                if after == 0 {
                    (stats, MirrorChange::Remove)
                } else {
                    (stats, MirrorChange::Rewrite(survivors))
                }
            },
        }
    }

    /// The total of compacting every file, one result per file in the order of the work.
    /// Malformed logs are counted as skipped; any other error ends the work.
    pub fn compact_all(&self, results: Vec<Result<CompactStats, StoreError>>) -> (total: Result<
        CompactStats,
        StoreError,
    >)
        requires
            forall|n: int|
                0 <= n <= results@.len() ==> (#[trigger] added_up(results@.take(n)) matches Ok(c)
                    ==> countable(c)),
        ensures
            match total {
                Ok(t) => added_up(results@) == Ok::<Counts, int>(t@),
                Err(e) => added_up(results@) matches Err(at) && 0 <= at < results@.len()
                    && results@[at] == Err::<CompactStats, StoreError>(e),
            },
    {
        let ghost all = results@;
        let mut total = CompactStats::default();
        assert(all.take(0) =~= Seq::<Result<CompactStats, StoreError>>::empty());
        for result in it: results
            invariant
                it.seq() == all,
                added_up(all.take(it.index() as int)) == Ok::<Counts, int>(total@),
                forall|n: int|
                    0 <= n <= all.len() ==> (#[trigger] added_up(all.take(n)) matches Ok(c)
                        ==> countable(c)),
        {
            let ghost n = it.index() as int;
            proof {
                let head = all.take(n + 1);
                assert(head.drop_last() =~= all.take(n));
                assert(head.last() == result);
                assert(added_up(head) matches Ok(c) ==> countable(c));
            }
            match result {
                Ok(stats) => {
                    total.absorb(stats);
                },
                Err(StoreError::MalformedLine { .. }) => {
                    total.files_skipped += 1;
                },
                Err(e) => {
                    proof {
                        lemma_added_up_err(all, n + 1);
                    }
                    return Err(e);
                },
            }
        }
        assert(all.take(all.len() as int) =~= all);
        Ok(total)
    }

    /// The total of compacting every file, given how often the lock was refused before it
    /// was granted, or given up: `LockBusy` if that was as often as `opts` allows.
    pub fn compact_all_opts(
        &self,
        opts: &CompactOptions,
        refused: u32,
        results: Vec<Result<CompactStats, StoreError>>,
    ) -> (total: Result<CompactStats, StoreError>)
        requires
            forall|n: int|
                0 <= n <= results@.len() ==> (#[trigger] added_up(results@.take(n)) matches Ok(c)
                    ==> countable(c)),
        ensures
            if refused > 0 && refused >= opts.lock_retries {
                total matches Err(e) && e is LockBusy
            } else {
                match total {
                    Ok(t) => added_up(results@) == Ok::<Counts, int>(t@),
                    Err(e) => added_up(results@) matches Err(at) && 0 <= at < results@.len()
                        && results@[at] == Err::<CompactStats, StoreError>(e),
                }
            },
    {
        if refused > 0 && refused >= opts.lock_retries {
            return Err(StoreError::LockBusy);
        }
        self.compact_all(results)
    }
}

/// After one more refusal of the lock: how many there were, if another try is due after
/// the backoff; `LockBusy` if that was the last try.
pub fn lock_refused(opts: &CompactOptions, refused_before: u32) -> (refused: Result<
    u32,
    StoreError,
>)
    requires
        refused_before < u32::MAX,
    ensures
        match refused {
            Ok(n) => n == refused_before + 1 && n < opts.lock_retries,
            Err(e) => e is LockBusy && refused_before + 1 >= opts.lock_retries,
        },
{
    let refused: u32 = refused_before + 1;
    if refused >= opts.lock_retries {
        Err(StoreError::LockBusy)
    } else {
        Ok(refused)
    }
}

/// The directories that a mirror lies in below `annot`, from the inside out.
pub open spec fn enclosing(annot: Seq<Part>, mirror: Seq<Part>) -> Seq<Seq<Part>> {
    if annot.is_prefix_of(mirror) && mirror.len() > annot.len() {
        Seq::new(
            (mirror.len() - annot.len() - 1) as nat,
            |i: int| mirror.take(mirror.len() - 1 - i),
        )
    } else {
        seq![]
    }
}

impl Store {
    /// The directories that may be left empty when `mirror` is removed, from the inside out.
    /// The directory of the annotations is none of them.
    pub fn parents_to_prune(&self, mirror: &TreePath) -> (dirs: Vec<TreePath>)
        ensures
            path::path_views(dirs@) == enclosing(
                self.root().push(Part::Normal(store::annot_name())),
                mirror@,
            ),
    {
        let mut dirs: Vec<TreePath> = Vec::new();
        let annot = self.annot_root();
        let base: usize = annot.components.len();
        let n: usize = mirror.components.len();
        if !mirror.starts_with(annot) || n <= base {
            assert(path::path_views(dirs@) =~= enclosing(annot@, mirror@));
            return dirs;
        }
        let mut dir = mirror.clone();
        dir.components.pop();
        assert(dir@ =~= mirror@.take(n - 1));
        while dir.components.len() > base
            invariant
                annot@.is_prefix_of(mirror@),
                base == annot@.len(),
                n == mirror@.len(),
                base < n,
                base <= dir@.len() < n,
                dir@ == mirror@.take(dir@.len() as int),
                dirs@.len() == n - 1 - dir@.len(),
                forall|i: int|
                    #![trigger dirs@[i]]
                    0 <= i < dirs@.len() ==> dirs@[i]@ == mirror@.take(n - 1 - i),
            decreases dir@.len(),
        {
            let ghost here = dir@;
            dirs.push(dir.clone());
            dir.components.pop();
            assert(dir@ =~= here.drop_last());
            assert(here.drop_last() =~= mirror@.take(here.len() - 1));
        }
        assert(path::path_views(dirs@) =~= enclosing(annot@, mirror@));
        dirs
    }
}

/// `std::str::from_utf8` succeeds on exactly the valid UTF-8.
#[verifier::external_body]
fn is_utf8(bytes: &[u8]) -> (yes: bool)
    ensures
        yes == vstd::utf8::valid_utf8(bytes@),
{
    std::str::from_utf8(bytes).is_ok()
}

/// The name of the file that a log is written to before it takes the place of the one
/// named `name`: that name, or `mirror` where it is no text, then `.tmp-` and the number
/// of the process.
pub open spec fn tmp_name(name: Seq<u8>, pid: u32) -> Seq<u8> {
    let own = if name.len() > 0 && vstd::utf8::valid_utf8(name) {
        name
    } else {
        vstd::utf8::encode_utf8("mirror"@)
    };
    own + vstd::utf8::encode_utf8(".tmp-"@ + text::decimal(pid as nat))
}

/// How the file of a log is replaced: `text` is written to the file `tmp` beside it, which
/// is then renamed.
#[derive(Debug)]
pub struct MirrorWrite {
    pub tmp: TreePath,
    pub text: String,
}

fn append_bytes(out: &mut Vec<u8>, bytes: &[u8])
    ensures
        final(out)@ == old(out)@ + bytes@,
{
    let mut i: usize = 0;
    while i < bytes.len()
        invariant
            i <= bytes@.len(),
            out@ == old(out)@ + bytes@.take(i as int),
        decreases bytes@.len() - i,
    {
        out.push(bytes[i]);
        i += 1;
        assert(out@ =~= old(out)@ + bytes@.take(i as int));
    }
    assert(bytes@.take(i as int) =~= bytes@);
}

/// How `lines` replace the content of `mirror`, for the process `pid`; `None` if the path
/// lies in no directory.
pub fn plan_mirror_write(mirror: &TreePath, pid: u32, lines: &Vec<String>) -> (plan: Option<
    MirrorWrite,
>)
    ensures
        match plan {
            None => mirror@.len() == 0 || mirror@.last() is Root,
            Some(w) => {
                &&& mirror@.len() > 0 && !(mirror@.last() is Root)
                &&& w.tmp@ == mirror@.drop_last().push(
                    Part::Normal(tmp_name(store::file_name(mirror@), pid)),
                )
                &&& w.text@ == segments::terminate(model::texts(lines@), '\n')
            },
        },
{
    let n: usize = mirror.components.len();
    if n == 0 {
        return None;
    }
    assert(mirror@.last() == mirror.components@[n - 1]@);
    let mut name: Vec<u8> = Vec::new();
    match &mirror.components[n - 1] {
        Component::Root => {
            return None;
        },
        Component::Normal(own) => {
            name = clone_bytes(own);
        },
        _ => {},
    }
    assert(name@ =~= store::file_name(mirror@));
    let mut tmp: Vec<u8> = Vec::new();
    if name.len() > 0 && is_utf8(name.as_slice()) {
        append_bytes(&mut tmp, name.as_slice());
        assert(tmp@ =~= name@);
    } else {
        append_bytes(&mut tmp, "mirror".as_bytes());
        assert(tmp@ =~= vstd::utf8::encode_utf8("mirror"@));
    }
    let mut ending = String::new();
    ending.append(".tmp-");
    push_decimal(&mut ending, pid as u128);
    assert(ending@ =~= ".tmp-"@ + text::decimal(pid as nat));
    append_bytes(&mut tmp, ending.as_str().as_bytes());
    let mut path = mirror.clone();
    path.components.pop();
    assert(path@ =~= mirror@.drop_last());
    path.push(Component::Normal(tmp));
    Some(MirrorWrite { tmp: path, text: log_text(lines) })
}

/// What compacting a log counts: the records that were there and those that are left, the
/// records that share their id with a later one, and the ids of which nothing is left. The file
/// goes if and only if nothing is left.
pub proof fn lemma_counts_tell(log: Seq<RecordView>, survivors: Seq<RecordView>)
    requires
        fold::is_folded(log, survivors),
    ensures
        ({
            let c = log_counts(log, survivors);
            let ids = log.map_values(|r: RecordView| r.id).to_set();
            &&& c.files_compacted == 1
            &&& c.files_removed == if survivors.len() == 0 {
                1int
            } else {
                0
            }
            &&& c.files_skipped == 0
            &&& c.records_before == log.len()
            &&& c.records_after == survivors.len()
            &&& c.duplicates_merged == log.len() - ids.len()
            &&& c.tombstones_dropped == ids.len() - survivors.len()
        }),
{
    fold::lemma_known_ids(log);
}

/// The total of compacting adds up every count over all files, with one skipped file for every
/// log that was malformed.
pub proof fn lemma_total_adds_up(results: Seq<Result<CompactStats, StoreError>>)
    requires
        added_up(results) is Ok,
    ensures
        added_up(results) matches Ok(total) && ({
            let sum = |f: spec_fn(CompactStats) -> int, skipped: int|
                results.fold_left(
                    0int,
                    |t: int, r: Result<CompactStats, StoreError>|
                        t + match r {
                            Ok(stats) => f(stats),
                            Err(_) => skipped,
                        },
                );
            &&& total.files_compacted == sum(|s: CompactStats| s.files_compacted as int, 0)
            &&& total.files_removed == sum(|s: CompactStats| s.files_removed as int, 0)
            &&& total.files_skipped == sum(|s: CompactStats| s.files_skipped as int, 1)
            &&& total.records_before == sum(|s: CompactStats| s.records_before as int, 0)
            &&& total.records_after == sum(|s: CompactStats| s.records_after as int, 0)
            &&& total.duplicates_merged == sum(|s: CompactStats| s.duplicates_merged as int, 0)
            &&& total.tombstones_dropped == sum(|s: CompactStats| s.tombstones_dropped as int, 0)
        }),
    decreases results.len(),
{
    if results.len() > 0 {
        lemma_total_adds_up(results.drop_last());
    }
}

/// Below the directory of the annotations, every directory that a mirror lies in is tried, the
/// innermost first; that directory itself and what lies above it is not.
pub proof fn lemma_enclosing_directories(annot: Seq<Part>, dirs: Seq<Part>, file: Part)
    ensures
        enclosing(annot, (annot + dirs).push(file)).len() == dirs.len(),
        forall|i: int|
            0 <= i < dirs.len() ==> (#[trigger] enclosing(annot, (annot + dirs).push(file))[i])
                == annot + dirs.take(dirs.len() - i),
{
    let mirror = (annot + dirs).push(file);
    assert(mirror.subrange(0, annot.len() as int) =~= annot);
    assert forall|i: int| 0 <= i < dirs.len() implies (#[trigger] enclosing(annot, mirror)[i])
        == annot + dirs.take(dirs.len() - i) by {
        assert(mirror.take(mirror.len() - 1 - i) =~= annot + dirs.take(dirs.len() - i));
    }
}

/// The file that a log is written to first is never the log itself, and two processes never
/// write to the same one.
pub proof fn lemma_tmp_names_differ(name: Seq<u8>, p: u32, q: u32)
    ensures
        tmp_name(name, p) != name,
        tmp_name(name, p) == tmp_name(name, q) ==> p == q,
        name.len() > 0 && vstd::utf8::valid_utf8(name) ==> tmp_name(name, p) == name
            + vstd::utf8::encode_utf8(".tmp-"@ + text::decimal(p as nat)),
{
    let own = if name.len() > 0 && vstd::utf8::valid_utf8(name) {
        name
    } else {
        vstd::utf8::encode_utf8("mirror"@)
    };
    let x = ".tmp-"@ + text::decimal(p as nat);
    let y = ".tmp-"@ + text::decimal(q as nat);
    reveal_strlit(".tmp-");
    reveal_strlit("mirror");
    text::lemma_decimal_roundtrip(p as nat);
    text::lemma_decimal_roundtrip(q as nat);
    vstd::utf8::encode_utf8_decode_utf8(x);
    vstd::utf8::encode_utf8_decode_utf8(y);
    vstd::utf8::encode_utf8_valid_utf8(x);
    vstd::utf8::encode_utf8_valid_utf8("mirror"@ + x);
    crate::log::lemma_encode_concat("mirror"@, x);
    assert(x.len() > 0);
    assert(vstd::utf8::encode_utf8(x).len() > 0);
    if tmp_name(name, p) == name {
        if own == name {
            assert((own + vstd::utf8::encode_utf8(x)).len() > own.len());
        } else {
            assert(vstd::utf8::valid_utf8(name));
        }
    }
    if tmp_name(name, p) == tmp_name(name, q) {
        let n = own.len() as int;
        assert(tmp_name(name, p).skip(n) =~= vstd::utf8::encode_utf8(x));
        assert(tmp_name(name, q).skip(n) =~= vstd::utf8::encode_utf8(y));
        assert(x == y);
        assert(x.skip(5) =~= text::decimal(p as nat));
        assert(y.skip(5) =~= text::decimal(q as nat));
    }
}

} // verus!
