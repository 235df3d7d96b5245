//! Anchor creation and drift healing between stored records and the current content of
//! a file.

use vstd::prelude::*;

use crate::clock;
use crate::fold;
use crate::hunks;
use crate::hunks::{classify_hunks, hunks_since, HunkRanges};
use crate::lines;
use crate::lines::{is_binary, FileIndex};
use crate::log;
use crate::model;
use crate::model::{Anchor, AnchorView, Record, RecordView, Status, Ulid};
use crate::path;
use crate::path::TreePath;
use crate::rematch;
use crate::rematch::rematch;
use crate::segments;
use crate::store;
use crate::store::{Refusal, Store, StoreError};
use crate::text;
use crate::text::{hex16, same_text};

verus! {

broadcast use vstd::string::group_string_axioms;

/// Why a record lost its anchor.
#[derive(Debug, Clone, Copy, PartialEq, Eq, Structural)]
pub enum OrphanReason {
    LowConfidence,
    FileMissing,
}

/// What a sync pass did to one record. A confidence is counted in hundredths of a
/// percent.
#[derive(Debug, Clone, Copy, PartialEq, Eq, Structural)]
pub enum SyncOutcome {
    Unchanged,
    Refreshed,
    Shifted { delta: i64 },
    Rematched { new_start: u32, new_end: u32, confidence_bp: u64 },
    Orphaned { reason: OrphanReason },
    SkippedNotLive,
}

/// A freshly computed anchor together with the text it covers.
#[derive(Debug)]
pub struct NewAnchor {
    pub anchor: Anchor,
    pub snippet: String,
}

impl Clone for NewAnchor {
    fn clone(&self) -> (out: NewAnchor)
        ensures
            out.anchor@ == self.anchor@,
            out.snippet@ == self.snippet@,
    {
        NewAnchor { anchor: self.anchor.clone(), snippet: self.snippet.clone() }
    }
}

/// Errors from anchoring and syncing.
#[derive(Debug)]
pub enum SyncError {
    /// The line range does not lie in the file.
    InvalidRange { path: TreePath, start: u32, end: u32, line_count: u32 },
    /// The file holds no text.
    BinaryFile { path: TreePath },
    /// The object id of the content could not be computed.
    Odb(String),
    /// The store refused.
    Store(StoreError),
}

/// What the object database holds under the id that an anchor names; `None` if nothing
/// that is readable.
#[derive(Debug)]
pub struct BaseBlob {
    pub hex: String,
    pub content: Option<Vec<u8>>,
}

/// Whether the anchor names no lines.
pub open spec fn degenerate(anchor: AnchorView) -> bool {
    anchor.start == 0 || anchor.start > anchor.end || anchor.line_hashes.len() == 0
}

/// `anchor` put on lines `a..b` of a file; only its symbol stays.
pub open spec fn anchored(
    symbol: Option<Seq<char>>,
    lines: Seq<Seq<u8>>,
    blob: Seq<char>,
    a: int,
    b: int,
) -> AnchorView {
    AnchorView {
        base_blob: blob,
        start: (a + 1) as u32,
        end: b as u32,
        line_hashes: lines::hash_texts(lines.subrange(a, b)),
        ctx_before: text::hex_digits(lines::before_hash(lines, a) as nat, 16),
        ctx_after: text::hex_digits(lines::after_hash(lines, b) as nat, 16),
        symbol,
    }
}

/// `record` put on lines `a..b` of a file at the time `now`.
pub open spec fn healed(
    record: RecordView,
    lines: Seq<Seq<u8>>,
    blob: Seq<char>,
    a: int,
    b: int,
    now: Seq<char>,
) -> RecordView {
    RecordView {
        anchor: anchored(record.anchor.symbol, lines, blob, a, b),
        orig_snippet: Some(lines::snippet_of(lines.subrange(a, b))),
        updated_at: now,
        ..record
    }
}

/// `record` given up at the time `now`: nothing but its state changes.
pub open spec fn orphaned(record: RecordView, now: Seq<char>) -> RecordView {
    RecordView { status: Status::Orphaned, updated_at: now, ..record }
}

/// By how much the hunks move the lines `a..b` as a whole, if they leave them alone and
/// inside a file of `n` lines.
pub open spec fn whole_shift(
    hunks: Option<Seq<(int, int, int, int)>>,
    a: int,
    b: int,
    n: int,
) -> Option<int> {
    match hunks {
        Some(h) => {
            let delta = hunks::delta_above(h, a);
            if !hunks::touches(h, a, b) && 0 <= a + delta && b + delta <= n {
                Some(delta)
            } else {
                None
            }
        },
        None => None,
    }
}

/// Where the first anchored line is looked for: moved by the hunks above it, or at its
/// old place where no hunks are known.
pub open spec fn expected_at(hunks: Option<Seq<(int, int, int, int)>>, a: int) -> int {
    match hunks {
        Some(h) => a + hunks::delta_above(h, a),
        None => a,
    }
}

/// A live record of an older content, brought to a content with the given lines and
/// object id, at the time `now`; and what that was.
pub open spec fn synced(
    record: RecordView,
    lines: Seq<Seq<u8>>,
    blob: Seq<char>,
    hunks: Option<Seq<(int, int, int, int)>>,
    now: Seq<char>,
) -> (RecordView, SyncOutcome) {
    let a = record.anchor.start - 1;
    let b = record.anchor.end as int;
    let lost = (
        orphaned(record, now),
        SyncOutcome::Orphaned { reason: OrphanReason::LowConfidence },
    );
    if degenerate(record.anchor) {
        lost
    } else {
        match whole_shift(hunks, a, b, lines.len() as int) {
            Some(delta) => (
                healed(record, lines, blob, a + delta, b + delta, now),
                if delta == 0 {
                    SyncOutcome::Refreshed
                } else {
                    SyncOutcome::Shifted { delta: delta as i64 }
                },
            ),
            None => match rematch::match_of(record.anchor, lines, expected_at(hunks, a)) {
                Some((start, len, score)) => (
                    healed(record, lines, blob, start, start + len, now),
                    SyncOutcome::Rematched {
                        new_start: (start + 1) as u32,
                        new_end: (start + len) as u32,
                        confidence_bp: score as u64,
                    },
                ),
                None => lost,
            },
        }
    }
}

/// Rebases a record onto lines `a..b` of the current content, refreshing every
/// content-derived anchor field so that the next sync finds it unchanged.
fn heal(record: &mut Record, index: &FileIndex<'_>, cur_hex: &str, a: usize, b: usize)
    requires
        index.wf(),
        a < b <= index.text().len(),
    ensures
        final(record)@ == healed(
            old(record)@,
            index.text(),
            cur_hex@,
            a as int,
            b as int,
            final(record).updated_at@,
        ),
        clock::is_timestamp(final(record).updated_at@),
{
    record.anchor.base_blob = cur_hex.to_owned();
    record.anchor.start = #[verifier::truncate] ((a + 1) as u32);
    record.anchor.end = #[verifier::truncate] (b as u32);
    record.anchor.line_hashes = index.hex_hashes(a, b);
    record.anchor.ctx_before = hex16(index.ctx_before_at[a]);
    record.anchor.ctx_after = hex16(index.ctx_after_at[b]);
    record.orig_snippet = Some(index.snippet(a, b));
    record.touch();
    assert(record@ =~= healed(
        old(record)@,
        index.text(),
        cur_hex@,
        a as int,
        b as int,
        record.updated_at@,
    ));
}

/// What `sync_one` asks of hunks: each one above the span is a pair of ranges, and no
/// sum of what they gain and lose leaves the machine's numbers.
pub open spec fn usable(hunks: Seq<HunkRanges>, anchor: AnchorView, n: int) -> bool {
    let a = anchor.start - 1;
    let views = hunks::hunk_views(hunks);
    &&& forall|i: int|
        0 <= i < hunks.len() && (#[trigger] hunks[i]).before.end <= a ==> hunks[i].before.start
            <= hunks[i].before.end && hunks[i].after.start <= hunks[i].after.end
    &&& forall|m: int|
        0 <= m <= hunks.len() ==> i64::MIN <= #[trigger] hunks::delta_above(
            views.take(m),
            a,
        ) <= i64::MAX
    &&& anchor.end + hunks::delta_above(views, a) <= i64::MAX
    &&& i64::MIN <= a + hunks::delta_above(views, a)
    &&& rematch::within_budget(anchor.line_hashes.len() as int, n) ==> n - (a
        + hunks::delta_above(views, a)) <= i64::MAX
}

/// The bounds of hunks that may be missing.
pub open spec fn opt_hunk_views(hunks: Option<&[HunkRanges]>) -> Option<
    Seq<(int, int, int, int)>,
> {
    match hunks {
        Some(h) => Some(hunks::hunk_views(h@)),
        None => None,
    }
}

/// Brings one live record to the content behind `index`, whose object id is `cur_hex`:
/// moved along with the hunks, found again by its hashes, or orphaned.
pub fn sync_one(
    record: &mut Record,
    index: &FileIndex<'_>,
    cur_hex: &str,
    hunks: Option<&[HunkRanges]>,
) -> (outcome: SyncOutcome)
    requires
        index.wf(),
        hunks matches Some(h) ==> !degenerate(old(record)@.anchor) ==> usable(
            h@,
            old(record)@.anchor,
            index.text().len() as int,
        ),
    ensures
        (final(record)@, outcome) == synced(
            old(record)@,
            index.text(),
            cur_hex@,
            opt_hunk_views(hunks),
            final(record).updated_at@,
        ),
        clock::is_timestamp(final(record).updated_at@),
{
    let start: u32 = record.anchor.start;
    let end: u32 = record.anchor.end;
    let n: usize = index.len();
    if start == 0 || start > end || record.anchor.line_hashes.len() == 0 {
        record.orphan();
        return SyncOutcome::Orphaned { reason: OrphanReason::LowConfidence };
    }
    let a: u32 = start - 1;
    let b: u32 = end;
    let expected: i64 = match hunks {
        Some(h) => {
            let (delta, overlap) = classify_hunks(h, a, b);
            let new_a: i64 = a as i64 + delta;
            let new_b: i64 = b as i64 + delta;
            if !overlap && new_a >= 0 && new_b as u64 <= n as u64 {
                heal(record, index, cur_hex, new_a as usize, new_b as usize);
                return if delta == 0 {
                    SyncOutcome::Refreshed
                } else {
                    SyncOutcome::Shifted { delta }
                };
            }
            new_a
        },
        None => a as i64,
    };
    proof {
        let k = record.anchor.line_hashes@.len() as int;
        if rematch::within_budget(k, n as int) {
            rematch::lemma_budget(k, n as int);
        }
        rematch::lemma_match_bounds(record.anchor@, index.text(), expected as int);
    }
    match rematch(&record.anchor, index, expected) {
        Some(m) => {
            heal(record, index, cur_hex, m.start, m.start + m.len);
            SyncOutcome::Rematched {
                new_start: #[verifier::truncate] ((m.start + 1) as u32),
                new_end: #[verifier::truncate] ((m.start + m.len) as u32),
                confidence_bp: m.score_bp,
            }
        },
        None => {
            record.orphan();
            SyncOutcome::Orphaned { reason: OrphanReason::LowConfidence }
        },
    }
}

/// What git hashes for a blob: the word `blob`, a space, the number of bytes, a NUL, and the
/// bytes.
pub open spec fn blob_object(bytes: Seq<u8>) -> Seq<u8> {
    vstd::utf8::encode_utf8("blob "@ + text::decimal(bytes.len())) + seq![0u8] + bytes
}

/// Two lowercase hexadecimal digits for each byte.
pub open spec fn hex_text(bytes: Seq<u8>) -> Seq<char> {
    Seq::new(
        2 * bytes.len(),
        |i: int|
            text::hex_char(
                if i % 2 == 0 {
                    bytes[i / 2] as int / 16
                } else {
                    bytes[i / 2] as int % 16
                },
            ),
    )
}

/// The hexadecimal object id that git gives a blob of these bytes; `None` where the
/// hasher reports that the input was built to collide with another.
pub open spec fn blob_hex(bytes: Seq<u8>) -> Option<Seq<char>> {
    match lines::sha1_digest(blob_object(bytes)) {
        Some(digest) => Some(hex_text(digest)),
        None => None,
    }
}

/// `gix::objs::compute_hash` for a blob, and `ObjectId::to_hex` of the id: the SHA-1 digest,
/// by the hasher that [`lines::hash64`] uses, of git's header for a blob and the bytes, as
/// 40 lowercase hexadecimal digits. The error text is the one that gix gives.
#[verifier::external_body]
fn compute_blob_hex(bytes: &[u8]) -> (hex: Result<String, String>)
    ensures
        match hex {
            Ok(h) => blob_hex(bytes@) == Some(h@) && h@.len() == 40,
            Err(_) => blob_hex(bytes@) is None,
        },
{
    match gix::objs::compute_hash(gix::hash::Kind::Sha1, gix::objs::Kind::Blob, bytes) {
        Ok(id) => Ok(id.to_hex().to_string()),
        Err(e) => Err(e.to_string()),
    }
}

/// The object id of `bytes` as a blob.
pub fn blob_oid(bytes: &[u8]) -> (hex: Result<String, SyncError>)
    ensures
        match hex {
            Ok(h) => blob_hex(bytes@) == Some(h@) && id_bytes(h@) == lines::sha1_digest(
                blob_object(bytes@),
            ),
            Err(e) => blob_hex(bytes@) is None && e is Odb,
        },
{
    match compute_blob_hex(bytes) {
        Ok(h) => {
            proof {
                lemma_id_of_hex(lines::sha1_digest(blob_object(bytes@))->0);
            }
            Ok(h)
        },
        Err(e) => Err(SyncError::Odb(e)),
    }
}

/// The bytes that an object id of 40 hexadecimal digits stands for; `None` for any other
/// text.
pub open spec fn id_bytes(hex: Seq<char>) -> Option<Seq<u8>> {
    if hex.len() == 40 && forall|i: int| 0 <= i < 40 ==> text::is_hex(#[trigger] hex[i]) {
        Some(
            Seq::new(
                20,
                |i: int| (text::hex_value(hex[2 * i]) * 16 + text::hex_value(hex[2 * i + 1])) as u8,
            ),
        )
    } else {
        None
    }
}

/// The text of an object id stands for the id.
pub proof fn lemma_id_of_hex(id: Seq<u8>)
    requires
        id.len() == 20,
    ensures
        id_bytes(hex_text(id)) == Some(id),
{
    let hex = hex_text(id);
    assert forall|i: int| 0 <= i < 40 implies text::is_hex(#[trigger] hex[i]) by {}
    let read = id_bytes(hex)->0;
    assert forall|i: int| 0 <= i < 20 implies read[i] == id[i] by {
        assert((2 * i) % 2 == 0 && (2 * i) / 2 == i);
        assert((2 * i + 1) % 2 == 1 && (2 * i + 1) / 2 == i);
        assert(text::hex_value(hex[2 * i]) == id[i] as int / 16);
        assert(text::hex_value(hex[2 * i + 1]) == id[i] as int % 16);
    }
    assert(read =~= id);
}

/// `gix::ObjectId::from_hex`: reads 40 hexadecimal digits of either case as 20 bytes and
/// rejects any other text.
#[verifier::external_body]
fn object_id(hex: &str) -> (id: Option<Vec<u8>>)
    ensures
        match id {
            Some(b) => id_bytes(hex@) == Some(b@),
            None => id_bytes(hex@) is None,
        },
{
    match gix::ObjectId::from_hex(hex.as_bytes()) {
        Ok(id) => Some(id.as_bytes().to_vec()),
        Err(_) => None,
    }
}

/// What is known under the object id `hex`: the first entry counts.
pub open spec fn base_content(blobs: Seq<BaseBlob>, hex: Seq<char>) -> Option<Seq<u8>>
    decreases blobs.len(),
{
    if blobs.len() == 0 {
        None
    } else if blobs[0].hex@ == hex {
        match blobs[0].content {
            Some(c) => Some(c@),
            None => None,
        }
    } else {
        base_content(blobs.skip(1), hex)
    }
}

/// The hunks from the content under `hex` to `bytes`, where that content is known.
pub open spec fn hunks_from(
    blobs: Seq<BaseBlob>,
    hex: Seq<char>,
    bytes: Seq<u8>,
) -> Option<Seq<(int, int, int, int)>> {
    match base_content(blobs, hex) {
        Some(old) => Some(hunks::histogram_hunks(old, bytes)),
        None => None,
    }
}

/// Whether the content under `hex`, where it is known, was compared with `bytes`, so that the
/// hunks turn it into them.
pub open spec fn hunks_hold(blobs: Seq<BaseBlob>, hex: Seq<char>, bytes: Seq<u8>) -> bool {
    base_content(blobs, hex) matches Some(old) ==> hunks::comparable(old, bytes) && hunks::edits(
        lines::lines_of(old),
        lines::lines_of(bytes),
        hunks::histogram_hunks(old, bytes),
    )
}

/// What becomes of a record whose file now holds `bytes`, a text with object id `blob`.
pub open spec fn content_step(
    old: RecordView,
    new: RecordView,
    outcome: SyncOutcome,
    bytes: Seq<u8>,
    blob: Seq<char>,
    blobs: Seq<BaseBlob>,
) -> bool {
    if old.status != Status::Live {
        new == old && outcome == SyncOutcome::SkippedNotLive
    } else if old.anchor.base_blob == blob {
        new == old && outcome == SyncOutcome::Unchanged
    } else {
        &&& (new, outcome) == synced(
            old,
            lines::lines_of(bytes),
            blob,
            hunks_from(blobs, old.anchor.base_blob, bytes),
            new.updated_at,
        )
        &&& hunks_hold(blobs, old.anchor.base_blob, bytes)
        &&& clock::is_timestamp(new.updated_at)
    }
}

/// What becomes of a record whose file is gone or holds no text.
pub open spec fn orphan_step(
    old: RecordView,
    new: RecordView,
    outcome: SyncOutcome,
    reason: OrphanReason,
) -> bool {
    if old.status != Status::Live {
        new == old && outcome == SyncOutcome::SkippedNotLive
    } else {
        &&& new == orphaned(old, new.updated_at)
        &&& clock::is_timestamp(new.updated_at)
        &&& outcome == SyncOutcome::Orphaned { reason }
    }
}

/// What becomes of a record whose file holds `content`, or is gone.
pub open spec fn file_step(
    old: RecordView,
    new: RecordView,
    outcome: SyncOutcome,
    content: Option<Seq<u8>>,
    blobs: Seq<BaseBlob>,
) -> bool {
    match content {
        None => orphan_step(old, new, outcome, OrphanReason::FileMissing),
        Some(bytes) => if lines::looks_binary(bytes) {
            orphan_step(old, new, outcome, OrphanReason::LowConfidence)
        } else {
            blob_hex(bytes) matches Some(blob) && content_step(
                old,
                new,
                outcome,
                bytes,
                blob,
                blobs,
            )
        },
    }
}

/// The bytes of a slice that may be missing.
pub open spec fn opt_bytes(content: Option<&[u8]>) -> Option<Seq<u8>> {
    match content {
        Some(b) => Some(b@),
        None => None,
    }
}

/// Whether every known content that a live record is anchored in, other than the one under
/// `blob`, can be compared with `bytes`.
pub open spec fn stale_comparable(
    records: Seq<RecordView>,
    blob: Seq<char>,
    blobs: Seq<BaseBlob>,
    bytes: Seq<u8>,
) -> bool {
    forall|i: int|
        #![trigger records[i]]
        0 <= i < records.len() && records[i].status == Status::Live && records[i].anchor.base_blob
            != blob ==> (base_content(blobs, records[i].anchor.base_blob) matches Some(c)
            ==> hunks::comparable(c, bytes))
}

/// Whether every known content that a live record is anchored in can be compared with the
/// current one, where that is a text.
pub open spec fn named_comparable(
    records: Seq<RecordView>,
    blobs: Seq<BaseBlob>,
    content: Option<Seq<u8>>,
) -> bool {
    content matches Some(bytes) ==> !lines::looks_binary(bytes) ==> forall|i: int|
        #![trigger records[i]]
        0 <= i < records.len() && records[i].status == Status::Live ==> (base_content(
            blobs,
            records[i].anchor.base_blob,
        ) matches Some(c) ==> hunks::comparable(c, bytes))
}

fn find_base<'a>(blobs: &'a [BaseBlob], hex: &str) -> (content: Option<&'a [u8]>)
    ensures
        opt_bytes(content) == base_content(blobs@, hex@),
{
    let mut i: usize = 0;
    assert(blobs@.skip(0) =~= blobs@);
    while i < blobs.len()
        invariant
            i <= blobs@.len(),
            base_content(blobs@, hex@) == base_content(blobs@.skip(i as int), hex@),
        decreases blobs@.len() - i,
    {
        assert(blobs@.skip(i as int)[0] == blobs@[i as int]);
        if same_text(blobs[i].hex.as_str(), hex) {
            return match &blobs[i].content {
                Some(c) => Some(c.as_slice()),
                None => None,
            };
        }
        assert(blobs@.skip(i as int).skip(1) =~= blobs@.skip(i + 1));
        i += 1;
    }
    None
}

/// Hunks that turn one text into another are usable for every anchor.
proof fn lemma_edits_usable(
    old: Seq<u8>,
    new: Seq<u8>,
    hunks: Seq<HunkRanges>,
    anchor: AnchorView,
)
    requires
        hunks::comparable(old, new),
        hunks::edits(lines::lines_of(old), lines::lines_of(new), hunks::hunk_views(hunks)),
        anchor.start > 0,
    ensures
        usable(hunks, anchor, lines::lines_of(new).len() as int),
{
    let views = hunks::hunk_views(hunks);
    let before = lines::lines_of(old).len() as int;
    let after = lines::lines_of(new).len() as int;
    let a = anchor.start - 1;
    assert forall|i: int| 0 <= i < hunks.len() implies (#[trigger] hunks[i]).before.start
        <= hunks[i].before.end && hunks[i].after.start <= hunks[i].after.end by {
        assert(views[i] == hunks::hunk_view(hunks[i]));
    }
    assert forall|m: int| 0 <= m <= hunks.len() implies -before <= #[trigger] hunks::delta_above(
        views.take(m),
        a,
    ) <= after by {
        assert(hunks::ordered(views.take(m), before, after));
        hunks::lemma_delta_bound(views.take(m), before, after, a);
    }
    assert(views.take(hunks.len() as int) =~= views);
}

/// Brings every record to `bytes`, a text whose object id is `cur_hex`. `blobs` tells
/// what the object database holds under the ids that the records name. `outcomes[i]`
/// describes `records[i]`.
pub fn sync_content(
    bytes: &[u8],
    cur_hex: &str,
    records: &mut Vec<Record>,
    blobs: &[BaseBlob],
) -> (outcomes: Vec<SyncOutcome>)
    requires
        stale_comparable(model::record_views(old(records)@), cur_hex@, blobs@, bytes@),
    ensures
        final(records)@.len() == old(records)@.len(),
        outcomes@.len() == old(records)@.len(),
        forall|i: int|
            #![trigger outcomes@[i]]
            0 <= i < outcomes@.len() ==> content_step(
                old(records)@[i]@,
                final(records)@[i]@,
                outcomes@[i],
                bytes@,
                cur_hex@,
                blobs@,
            ),
{
    let ghost views = model::record_views(records@);
    let index = FileIndex::build(bytes);
    let mut known: Vec<(String, Option<Vec<HunkRanges>>)> = Vec::new();
    let mut outcomes: Vec<SyncOutcome> = Vec::new();
    let mut i: usize = 0;
    while i < records.len()
        invariant
            index.wf(),
            index.text() == lines::lines_of(bytes@),
            stale_comparable(views, cur_hex@, blobs@, bytes@),
            views == model::record_views(old(records)@),
            i <= records@.len(),
            records@.len() == old(records)@.len(),
            outcomes@.len() == i,
            forall|j: int|
                #![trigger records@[j]]
                i <= j < records@.len() ==> records@[j]@ == old(records)@[j]@,
            forall|j: int|
                #![trigger outcomes@[j]]
                0 <= j < i ==> content_step(
                    old(records)@[j]@,
                    records@[j]@,
                    outcomes@[j],
                    bytes@,
                    cur_hex@,
                    blobs@,
                ),
            forall|j: int|
                0 <= j < known@.len() ==> known_entry(#[trigger] known@[j], bytes@, blobs@),
        decreases records@.len() - i,
    {
        let ghost before = records@;
        if records[i].status != Status::Live {
            outcomes.push(SyncOutcome::SkippedNotLive);
        } else if same_text(records[i].anchor.base_blob.as_str(), cur_hex) {
            outcomes.push(SyncOutcome::Unchanged);
        } else {
            let base = records[i].anchor.base_blob.clone();
            assert(views[i as int] == records@[i as int]@);
            let at = cached(&mut known, base.as_str(), bytes, blobs);
            let hunks = match &known[at].1 {
                Some(h) => Some(h.as_slice()),
                None => None,
            };
            proof {
                assert(known_entry(known@[at as int], bytes@, blobs@));
                if let Some(h) = known@[at as int].1 {
                    if records@[i as int].anchor.start > 0 {
                        let old = base_content(blobs@, base@)->0;
                        lemma_edits_usable(old, bytes@, h@, records@[i as int]@.anchor);
                    }
                }
            }
            let outcome = sync_one(&mut records[i], &index, cur_hex, hunks);
            outcomes.push(outcome);
        }
        i += 1;
        assert forall|j: int|
            #![trigger outcomes@[j]]
            0 <= j < i implies content_step(
            old(records)@[j]@,
            records@[j]@,
            outcomes@[j],
            bytes@,
            cur_hex@,
            blobs@,
        ) by {
            if j < i - 1 {
                assert(records@[j] == before[j]);
            }
        }
    }
    outcomes
}

/// A cached entry holds the hunks from the content that it names.
spec fn known_entry(
    entry: (String, Option<Vec<HunkRanges>>),
    bytes: Seq<u8>,
    blobs: Seq<BaseBlob>,
) -> bool {
    match (base_content(blobs, entry.0@), entry.1) {
        (None, None) => true,
        (Some(old), Some(h)) => {
            &&& hunks::hunk_views(h@) == hunks::histogram_hunks(old, bytes)
            &&& hunks::comparable(old, bytes)
            &&& hunks::edits(lines::lines_of(old), lines::lines_of(bytes), hunks::hunk_views(h@))
        },
        _ => false,
    }
}

/// The place of the hunks from the content under `hex`, computed where they are not
/// known yet.
fn cached(
    known: &mut Vec<(String, Option<Vec<HunkRanges>>)>,
    hex: &str,
    bytes: &[u8],
    blobs: &[BaseBlob],
) -> (at: usize)
    requires
        base_content(blobs@, hex@) matches Some(c) ==> hunks::comparable(c, bytes@),
        forall|j: int|
            0 <= j < old(known)@.len() ==> known_entry(#[trigger] old(known)@[j], bytes@, blobs@),
    ensures
        at < final(known)@.len(),
        final(known)@[at as int].0@ == hex@,
        forall|j: int|
            0 <= j < final(known)@.len() ==> known_entry(
                #[trigger] final(known)@[j],
                bytes@,
                blobs@,
            ),
{
    let mut i: usize = 0;
    while i < known.len()
        invariant
            i <= known@.len(),
            known@ == old(known)@,
            forall|j: int|
                0 <= j < known@.len() ==> known_entry(#[trigger] known@[j], bytes@, blobs@),
        decreases known@.len() - i,
    {
        if same_text(known[i].0.as_str(), hex) {
            return i;
        }
        i += 1;
    }
    let base = find_base(blobs, hex);
    let hunks = hunks_since(base, bytes);
    known.push((hex.to_owned(), hunks));
    known.len() - 1
}

/// Orphans every live record.
pub fn orphan_all(records: &mut Vec<Record>, reason: OrphanReason) -> (outcomes: Vec<SyncOutcome>)
    ensures
        final(records)@.len() == old(records)@.len(),
        outcomes@.len() == old(records)@.len(),
        forall|i: int|
            #![trigger outcomes@[i]]
            0 <= i < outcomes@.len() ==> orphan_step(
                old(records)@[i]@,
                final(records)@[i]@,
                outcomes@[i],
                reason,
            ),
{
    let mut outcomes: Vec<SyncOutcome> = Vec::new();
    let mut i: usize = 0;
    while i < records.len()
        invariant
            i <= records@.len(),
            records@.len() == old(records)@.len(),
            outcomes@.len() == i,
            forall|j: int|
                #![trigger records@[j]]
                i <= j < records@.len() ==> records@[j]@ == old(records)@[j]@,
            forall|j: int|
                #![trigger outcomes@[j]]
                0 <= j < i ==> orphan_step(
                    old(records)@[j]@,
                    records@[j]@,
                    outcomes@[j],
                    reason,
                ),
        decreases records@.len() - i,
    {
        let ghost before = records@;
        if records[i].status != Status::Live {
            outcomes.push(SyncOutcome::SkippedNotLive);
        } else {
            records[i].orphan();
            outcomes.push(SyncOutcome::Orphaned { reason });
        }
        i += 1;
        assert forall|j: int|
            #![trigger outcomes@[j]]
            0 <= j < i implies orphan_step(
            old(records)@[j]@,
            records@[j]@,
            outcomes@[j],
            reason,
        ) by {
            if j < i - 1 {
                assert(records@[j] == before[j]);
            }
        }
    }
    outcomes
}

/// The ids of older contents that live records are anchored in, each once, in the order
/// in which they are first met.
pub open spec fn stale_blobs(records: Seq<RecordView>, blob: Seq<char>) -> Seq<Seq<char>>
    decreases records.len(),
{
    if records.len() == 0 {
        seq![]
    } else {
        let found = stale_blobs(records.drop_last(), blob);
        let last = records.last();
        if last.status == Status::Live && last.anchor.base_blob != blob && !found.contains(
            last.anchor.base_blob,
        ) {
            found.push(last.anchor.base_blob)
        } else {
            found
        }
    }
}

/// An older content to look up in the object database; no `id` if the text names none.
#[derive(Debug)]
pub struct BlobLookup {
    pub hex: String,
    pub id: Option<Vec<u8>>,
}

/// The ids to look up.
pub open spec fn lookup_texts(lookups: Seq<BlobLookup>) -> Seq<Seq<char>> {
    lookups.map_values(|l: BlobLookup| l.hex@)
}

fn is_listed(lookups: &Vec<BlobLookup>, hex: &str) -> (yes: bool)
    ensures
        yes == lookup_texts(lookups@).contains(hex@),
{
    let mut i: usize = 0;
    while i < lookups.len()
        invariant
            i <= lookups@.len(),
            forall|j: int| 0 <= j < i ==> lookup_texts(lookups@)[j] != hex@,
        decreases lookups@.len() - i,
    {
        if same_text(lookups[i].hex.as_str(), hex) {
            assert(lookup_texts(lookups@)[i as int] == hex@);
            return true;
        }
        i += 1;
    }
    false
}

/// What has to be looked up before `records` are brought to a text with object id
/// `cur_hex`. If this is empty, nothing will be rebased.
pub fn blobs_to_read(cur_hex: &str, records: &Vec<Record>) -> (lookups: Vec<BlobLookup>)
    ensures
        lookup_texts(lookups@) == stale_blobs(model::record_views(records@), cur_hex@),
        forall|i: int|
            0 <= i < lookups@.len() ==> match (#[trigger] lookups@[i]).id {
                Some(b) => id_bytes(lookups@[i].hex@) == Some(b@),
                None => id_bytes(lookups@[i].hex@) is None,
            },
{
    let ghost views = model::record_views(records@);
    let mut lookups: Vec<BlobLookup> = Vec::new();
    let mut i: usize = 0;
    assert(views.take(0) =~= Seq::<RecordView>::empty());
    assert(lookup_texts(lookups@) =~= stale_blobs(views.take(0), cur_hex@));
    while i < records.len()
        invariant
            i <= records@.len(),
            views == model::record_views(records@),
            lookup_texts(lookups@) == stale_blobs(views.take(i as int), cur_hex@),
            forall|i: int|
                0 <= i < lookups@.len() ==> match (#[trigger] lookups@[i]).id {
                    Some(b) => id_bytes(lookups@[i].hex@) == Some(b@),
                    None => id_bytes(lookups@[i].hex@) is None,
                },
        decreases records@.len() - i,
    {
        assert(views.take(i + 1).drop_last() =~= views.take(i as int));
        assert(views.take(i + 1).last() == records@[i as int]@);
        let ghost before = lookup_texts(lookups@);
        let record = &records[i];
        let base = record.anchor.base_blob.as_str();
        if record.status == Status::Live && !same_text(base, cur_hex) && !is_listed(
            &lookups,
            base,
        ) {
            let hex = base.to_owned();
            let id = object_id(base);
            lookups.push(BlobLookup { hex, id });
            assert(lookup_texts(lookups@) =~= before.push(base@));
        }
        i += 1;
    }
    assert(views.take(i as int) =~= views);
    lookups
}

/// A repository handle used to anchor annotations and heal them as files drift.
#[derive(Debug)]
pub struct Syncer {
    workdir: TreePath,
}

/// Whether `start..=end`, counted from one, lies in a file of `line_count` lines.
pub open spec fn in_file(start: u32, end: u32, line_count: u32) -> bool {
    1 <= start <= end <= line_count
}

/// The anchor and text of lines `start..=end`, counted from one, of `content`, whose
/// object id is `blob`.
pub fn anchor_at(content: &[u8], blob: String, start: u32, end: u32) -> (new: NewAnchor)
    requires
        1 <= start <= end <= lines::lines_of(content@).len(),
    ensures
        new.anchor@ == anchored(
            None,
            lines::lines_of(content@),
            blob@,
            start - 1,
            end as int,
        ),
        new.snippet@ == lines::snippet_of(
            lines::lines_of(content@).subrange(start - 1, end as int),
        ),
        lines::all_utf8(lines::lines_of(content@).subrange(start - 1, end as int))
            ==> new.snippet@ == lines::decoded(
            lines::lines_of(content@).subrange(start - 1, end as int),
        ),
{
    let index = FileIndex::build(content);
    anchor_in(&index, blob, start, end)
}

fn anchor_in(index: &FileIndex<'_>, blob: String, start: u32, end: u32) -> (new: NewAnchor)
    requires
        index.wf(),
        1 <= start <= end <= index.text().len(),
    ensures
        new.anchor@ == anchored(None, index.text(), blob@, start - 1, end as int),
        new.snippet@ == lines::snippet_of(index.text().subrange(start - 1, end as int)),
        lines::all_utf8(index.text().subrange(start - 1, end as int)) ==> new.snippet@
            == lines::decoded(index.text().subrange(start - 1, end as int)),
{
    let a: usize = (start - 1) as usize;
    let b: usize = end as usize;
    let anchor = Anchor {
        base_blob: blob,
        start,
        end,
        line_hashes: index.hex_hashes(a, b),
        ctx_before: hex16(index.ctx_before_at[a]),
        ctx_after: hex16(index.ctx_after_at[b]),
        symbol: None,
    };
    let snippet = index.snippet(a, b);
    assert(anchor@ =~= anchored(None, index.text(), blob@, start - 1, end as int));
    NewAnchor { anchor, snippet }
}

impl Syncer {
    /// The repository's working directory.
    pub closed spec fn root(&self) -> Seq<path::Part> {
        self.workdir@
    }

    /// A handle on the repository whose working directory is `workdir`.
    pub fn new(workdir: TreePath) -> (syncer: Syncer)
        ensures
            syncer.root() == workdir@,
    {
        Syncer { workdir }
    }

    /// The repository's working directory.
    pub fn workdir(&self) -> (workdir: &TreePath)
        ensures
            workdir@ == self.root(),
    {
        &self.workdir
    }

    /// Builds an anchor for `content`, the current bytes of `rel_path`, over the 1-based
    /// inclusive line range `start..=end`, and returns the exact anchored text alongside.
    pub fn make_anchor(
        &self,
        rel_path: &TreePath,
        content: &[u8],
        start: u32,
        end: u32,
    ) -> (new: Result<NewAnchor, SyncError>)
        ensures
            ({
                let lines = lines::lines_of(content@);
                let binary = lines::looks_binary(content@);
                let fits = in_file(start, end, lines.len() as u32);
                let range = lines.subrange(start - 1, end as int);
                match new {
                    Ok(n) => {
                        &&& !binary && fits
                        &&& blob_hex(content@) matches Some(blob) && n.anchor@ == anchored(
                            None,
                            lines,
                            blob,
                            start - 1,
                            end as int,
                        )
                        &&& n.snippet@ == lines::snippet_of(range)
                        &&& lines::all_utf8(range) ==> n.snippet@ == lines::decoded(range)
                    },
                    Err(SyncError::BinaryFile { path }) => binary && path@ == rel_path@,
                    Err(SyncError::InvalidRange { path, start: s, end: e, line_count }) => !binary
                        && !fits && path@ == rel_path@ && s == start && e == end && line_count
                        == lines.len() as u32,
                    Err(SyncError::Odb(_)) => !binary && fits && blob_hex(content@) is None,
                    Err(SyncError::Store(_)) => false,
                }
            }),
    {
        if is_binary(content) {
            return Err(SyncError::BinaryFile { path: rel_path.clone() });
        }
        let index = FileIndex::build(content);
        let n: usize = index.len();
        let line_count: u32 = #[verifier::truncate] (n as u32);
        assert(n as u32 <= n) by (bit_vector);
        if start < 1 || start > end || end > line_count {
            return Err(
                SyncError::InvalidRange { path: rel_path.clone(), start, end, line_count },
            );
        }
        match blob_oid(content) {
            Ok(blob) => Ok(anchor_in(&index, blob, start, end)),
            Err(e) => Err(e),
        }
    }

    /// Syncs every record against `content`, the current bytes of their file, or `None` if
    /// the file is gone, mutating them in place. `outcomes[i]` describes `records[i]`.
    pub fn sync_file(
        &self,
        content: Option<&[u8]>,
        records: &mut Vec<Record>,
        blobs: &[BaseBlob],
    ) -> (outcomes: Result<Vec<SyncOutcome>, SyncError>)
        requires
            named_comparable(model::record_views(old(records)@), blobs@, opt_bytes(content)),
        ensures
            match outcomes {
                Ok(o) => {
                    &&& final(records)@.len() == old(records)@.len()
                    &&& o@.len() == old(records)@.len()
                    &&& forall|i: int|
                        #![trigger o@[i]]
                        0 <= i < o@.len() ==> file_step(
                            old(records)@[i]@,
                            final(records)@[i]@,
                            o@[i],
                            opt_bytes(content),
                            blobs@,
                        )
                },
                Err(e) => {
                    &&& e is Odb
                    &&& final(records)@ == old(records)@
                    &&& old(records)@.len() > 0
                    &&& content matches Some(bytes) && !lines::looks_binary(bytes@) && blob_hex(
                        bytes@,
                    ) is None
                },
            },
    {
        if records.len() == 0 {
            return Ok(Vec::new());
        }
        match content {
            None => Ok(orphan_all(records, OrphanReason::FileMissing)),
            Some(bytes) => {
                if is_binary(bytes) {
                    return Ok(orphan_all(records, OrphanReason::LowConfidence));
                }
                match blob_oid(bytes) {
                    Ok(cur_hex) => Ok(sync_content(bytes, cur_hex.as_str(), records, blobs)),
                    Err(e) => Err(e),
                }
            },
        }
    }

    /// Single-record convenience wrapper over [`Syncer::sync_file`].
    pub fn sync_annotation(
        &self,
        content: Option<&[u8]>,
        record: &mut Record,
        blobs: &[BaseBlob],
    ) -> (outcome: Result<SyncOutcome, SyncError>)
        requires
            named_comparable(seq![old(record)@], blobs@, opt_bytes(content)),
        ensures
            match outcome {
                Ok(o) => file_step(
                    old(record)@,
                    final(record)@,
                    o,
                    opt_bytes(content),
                    blobs@,
                ),
                Err(e) => {
                    &&& e is Odb
                    &&& final(record)@ == old(record)@
                    &&& content matches Some(bytes) && !lines::looks_binary(bytes@) && blob_hex(
                        bytes@,
                    ) is None
                },
            },
    {
        let mut one: Vec<Record> = Vec::new();
        one.push(record.clone());
        assert(model::record_views(one@) =~= seq![record@]);
        match self.sync_file(content, &mut one, blobs) {
            Ok(outcomes) => {
                let outcome = outcomes[0];
                *record = one[0].clone();
                Ok(outcome)
            },
            Err(e) => Err(e),
        }
    }
}

/// Whether an outcome tells of a changed record.
pub open spec fn is_change(outcome: SyncOutcome) -> bool {
    !(outcome is Unchanged) && !(outcome is SkippedNotLive)
}

/// Whether an outcome tells of a changed record, which then has to be written back.
pub fn mutates_record(outcome: &SyncOutcome) -> (yes: bool)
    ensures
        yes == is_change(*outcome),
{
    match outcome {
        SyncOutcome::Refreshed => true,
        SyncOutcome::Shifted { .. } => true,
        SyncOutcome::Rematched { .. } => true,
        SyncOutcome::Orphaned { .. } => true,
        SyncOutcome::Unchanged => false,
        SyncOutcome::SkippedNotLive => false,
    }
}

/// The records that their outcome tells were changed, in order.
pub open spec fn changed(records: Seq<RecordView>, outcomes: Seq<SyncOutcome>) -> Seq<RecordView>
    decreases records.len(),
{
    if records.len() == 0 || outcomes.len() != records.len() {
        seq![]
    } else {
        let rest = changed(records.drop_last(), outcomes.drop_last());
        if is_change(outcomes.last()) {
            rest.push(records.last())
        } else {
            rest
        }
    }
}

/// The records that have to be written back after a sync.
pub fn changed_records(records: &Vec<Record>, outcomes: &Vec<SyncOutcome>) -> (out: Vec<Record>)
    requires
        records@.len() == outcomes@.len(),
    ensures
        model::record_views(out@) == changed(model::record_views(records@), outcomes@),
{
    let ghost views = model::record_views(records@);
    let mut out: Vec<Record> = Vec::new();
    let mut i: usize = 0;
    assert(model::record_views(out@) =~= changed(views.take(0), outcomes@.take(0)));
    while i < records.len()
        invariant
            i <= records@.len(),
            records@.len() == outcomes@.len(),
            views == model::record_views(records@),
            model::record_views(out@) == changed(views.take(i as int), outcomes@.take(i as int)),
        decreases records@.len() - i,
    {
        let ghost before = model::record_views(out@);
        assert(views.take(i + 1).drop_last() =~= views.take(i as int));
        assert(outcomes@.take(i + 1).drop_last() =~= outcomes@.take(i as int));
        if mutates_record(&outcomes[i]) {
            out.push(records[i].clone());
            assert(model::record_views(out@) =~= before.push(records@[i as int]@));
        }
        i += 1;
    }
    assert(views.take(i as int) =~= views);
    assert(outcomes@.take(i as int) =~= outcomes@);
    out
}

/// A synced file whose log still lacks the records that were changed.
#[derive(Debug)]
pub struct SyncedFile {
    pub rel_path: TreePath,
    pub records: Vec<Record>,
    pub outcomes: Vec<(Ulid, SyncOutcome)>,
    pub to_append: Vec<Record>,
}

/// Post-sync state of one annotated file.
#[derive(Debug)]
pub struct FileSyncReport {
    pub rel_path: TreePath,
    pub records: Vec<Record>,
    pub outcomes: Vec<(Ulid, SyncOutcome)>,
    pub written_back: bool,
}

/// Post-sync state of a whole tree.
#[derive(Debug)]
pub struct SyncReport {
    pub files: Vec<FileSyncReport>,
}

/// Whether two reports say the same.
pub open spec fn same_report(a: FileSyncReport, b: FileSyncReport) -> bool {
    &&& a.rel_path@ == b.rel_path@
    &&& model::record_views(a.records@) == model::record_views(b.records@)
    &&& a.outcomes@ == b.outcomes@
    &&& a.written_back == b.written_back
}

impl Clone for FileSyncReport {
    fn clone(&self) -> (out: FileSyncReport)
        ensures
            same_report(out, *self),
    {
        let mut records: Vec<Record> = Vec::new();
        let mut i: usize = 0;
        while i < self.records.len()
            invariant
                i <= self.records@.len(),
                records@.len() == i,
                forall|j: int| 0 <= j < i ==> (#[trigger] records@[j])@ == self.records@[j]@,
            decreases self.records@.len() - i,
        {
            records.push(self.records[i].clone());
            i += 1;
        }
        let mut outcomes: Vec<(Ulid, SyncOutcome)> = Vec::new();
        let mut k: usize = 0;
        while k < self.outcomes.len()
            invariant
                k <= self.outcomes@.len(),
                outcomes@ == self.outcomes@.take(k as int),
            decreases self.outcomes@.len() - k,
        {
            outcomes.push(self.outcomes[k]);
            k += 1;
            assert(outcomes@ =~= self.outcomes@.take(k as int));
        }
        assert(outcomes@ =~= self.outcomes@);
        assert(model::record_views(records@) =~= model::record_views(self.records@));
        FileSyncReport {
            rel_path: self.rel_path.clone(),
            records,
            outcomes,
            written_back: self.written_back,
        }
    }
}

impl Clone for SyncReport {
    fn clone(&self) -> (out: SyncReport)
        ensures
            out.files@.len() == self.files@.len(),
            forall|i: int|
                0 <= i < out.files@.len() ==> same_report(#[trigger] out.files@[i], self.files@[i]),
    {
        let mut files: Vec<FileSyncReport> = Vec::new();
        let mut i: usize = 0;
        while i < self.files.len()
            invariant
                i <= self.files@.len(),
                files@.len() == i,
                forall|j: int| 0 <= j < i ==> same_report(#[trigger] files@[j], self.files@[j]),
            decreases self.files@.len() - i,
        {
            files.push(self.files[i].clone());
            i += 1;
        }
        SyncReport { files }
    }
}

/// The source file that `rel_path`, taken from the repository root, names.
pub open spec fn named_file(root: Seq<path::Part>, rel_path: Seq<path::Part>) -> Result<
    Seq<path::Part>,
    Refusal,
> {
    store::source_rel_of(root, path::joined(root, rel_path), root)
}

/// Whether an error is the one that goes with a refused path.
pub open spec fn is_refusal(error: SyncError, refusal: Refusal, root: Seq<path::Part>) -> bool {
    match (error, refusal) {
        (
            SyncError::Store(StoreError::OutsideRepo { path, root: r }),
            Refusal::Outside(p),
        ) => path@ == p && r@ == root,
        (SyncError::Store(StoreError::ReservedPath { path }), Refusal::Reserved(p)) => path@ == p,
        _ => false,
    }
}

fn resolve_in(store: &Store, rel_path: &TreePath) -> (rel: Result<TreePath, SyncError>)
    ensures
        match (rel, named_file(store.root(), rel_path@)) {
            (Ok(r), Ok(named)) => r@ == named,
            (Err(e), Err(refusal)) => is_refusal(e, refusal, store.root()),
            _ => false,
        },
{
    let root = store.repo_root();
    let source = root.join(rel_path);
    match store.source_rel(&source, root) {
        Ok(rel) => Ok(rel),
        Err(e) => Err(SyncError::Store(e)),
    }
}

/// Syncs the loaded records of one file. The log of the file, once what has to be appended
/// stands in it, adds up to the synced records.
pub fn sync_path(
    syncer: &Syncer,
    store: &Store,
    rel_path: &TreePath,
    content: Option<&[u8]>,
    records: Vec<Record>,
    blobs: &[BaseBlob],
) -> (synced: Result<SyncedFile, SyncError>)
    requires
        named_comparable(model::record_views(records@), blobs@, opt_bytes(content)),
    ensures
        match (synced, named_file(store.root(), rel_path@)) {
            (Err(e), Err(refusal)) => is_refusal(e, refusal, store.root()),
            (Ok(_), Err(_)) => false,
            (Err(e), Ok(_)) => e is Odb && records@.len() > 0 && (content matches Some(bytes)
                && !lines::looks_binary(bytes@) && blob_hex(bytes@) is None),
            (Ok(s), Ok(named)) => {
                &&& s.rel_path@ == named
                &&& s.records@.len() == records@.len()
                &&& s.outcomes@.len() == records@.len()
                &&& forall|i: int|
                    #![trigger s.outcomes@[i]]
                    0 <= i < s.outcomes@.len() ==> s.outcomes@[i].0 == s.records@[i].id
                        && file_step(
                        records@[i]@,
                        s.records@[i]@,
                        s.outcomes@[i].1,
                        opt_bytes(content),
                        blobs@,
                    )
                &&& model::record_views(s.to_append@) == changed(
                    model::record_views(s.records@),
                    s.outcomes@.map_values(|o: (Ulid, SyncOutcome)| o.1),
                )
                &&& forall|log: Seq<RecordView>| #[trigger]
                    fold::is_folded(log, model::record_views(records@)) ==> fold::is_folded(
                        log + model::record_views(s.to_append@),
                        model::record_views(s.records@),
                    )
            },
        },
{
    let rel_path = match resolve_in(store, rel_path) {
        Ok(rel) => rel,
        Err(e) => {
            return Err(e);
        },
    };
    let ghost loaded = model::record_views(records@);
    let mut records = records;
    match syncer.sync_file(content, &mut records, blobs) {
        Err(e) => Err(e),
        Ok(outcomes) => {
            let to_append = changed_records(&records, &outcomes);
            let mut tagged: Vec<(Ulid, SyncOutcome)> = Vec::new();
            let mut i: usize = 0;
            while i < records.len()
                invariant
                    i <= records@.len(),
                    records@.len() == outcomes@.len(),
                    tagged@.len() == i,
                    forall|j: int|
                        #![trigger tagged@[j]]
                        0 <= j < i ==> tagged@[j] == (records@[j].id, outcomes@[j]),
                decreases records@.len() - i,
            {
                tagged.push((records[i].id, outcomes[i]));
                i += 1;
            }
            assert(tagged@.map_values(|o: (Ulid, SyncOutcome)| o.1) =~= outcomes@);
            proof {
                let synced = model::record_views(records@);
                assert forall|i: int| 0 <= i < loaded.len() implies file_step(
                    loaded[i],
                    #[trigger] synced[i],
                    outcomes@[i],
                    opt_bytes(content),
                    blobs@,
                ) by {}
                assert forall|log: Seq<RecordView>| #[trigger]
                    fold::is_folded(log, loaded) implies fold::is_folded(
                    log + model::record_views(to_append@),
                    synced,
                ) by {
                    lemma_writeback_persists(
                        log,
                        loaded,
                        synced,
                        outcomes@,
                        opt_bytes(content),
                        blobs@,
                    );
                }
            }
            Ok(SyncedFile { rel_path, records, outcomes: tagged, to_append })
        },
    }
}

/// The report on a synced file, given whether appending to its log succeeded. It was written
/// back unless there was something to append and that failed; either way its records carry
/// the healed state.
pub fn record_write_back(synced: SyncedFile, appended: bool) -> (report: FileSyncReport)
    ensures
        report.rel_path == synced.rel_path,
        report.records == synced.records,
        report.outcomes == synced.outcomes,
        report.written_back == (synced.to_append@.len() == 0 || appended),
{
    let written_back = synced.to_append.len() == 0 || appended;
    FileSyncReport {
        rel_path: synced.rel_path,
        records: synced.records,
        outcomes: synced.outcomes,
        written_back,
    }
}

/// The annotated files that a sync of `subpath`, taken from the repository root, or of
/// everything covers, in order.
pub fn files_to_sync(store: &Store, files: Vec<TreePath>, subpath: Option<&TreePath>) -> (out:
    Result<Vec<TreePath>, SyncError>)
    ensures
        match subpath {
            None => out matches Ok(o) && path::path_views(o@) == path::path_views(files@),
            Some(p) => match (out, named_file(store.root(), p@)) {
                (Ok(o), Ok(named)) => path::path_views(o@) == path::path_views(files@).filter(
                    |f: Seq<path::Part>| named.is_prefix_of(f),
                ),
                (Err(e), Err(refusal)) => is_refusal(e, refusal, store.root()),
                _ => false,
            },
        },
{
    match subpath {
        None => Ok(files),
        Some(p) => match resolve_in(store, p) {
            Ok(dir) => Ok(files_under(&files, &dir)),
            Err(e) => Err(e),
        },
    }
}

fn files_under(files: &Vec<TreePath>, dir: &TreePath) -> (out: Vec<TreePath>)
    ensures
        path::path_views(out@) == path::path_views(files@).filter(
            |f: Seq<path::Part>| dir@.is_prefix_of(f),
        ),
{
    let ghost keep = |f: Seq<path::Part>| dir@.is_prefix_of(f);
    let ghost views = path::path_views(files@);
    let mut out: Vec<TreePath> = Vec::new();
    let mut i: usize = 0;
    assert(path::path_views(out@) =~= views.take(0).filter(keep)) by {
        reveal(Seq::filter);
    }
    while i < files.len()
        invariant
            i <= files@.len(),
            views == path::path_views(files@),
            keep == (|f: Seq<path::Part>| dir@.is_prefix_of(f)),
            path::path_views(out@) == views.take(i as int).filter(keep),
        decreases files@.len() - i,
    {
        let ghost before = path::path_views(out@);
        proof {
            reveal(Seq::filter);
            assert(views.take(i + 1).drop_last() =~= views.take(i as int));
            assert(views.take(i + 1).last() == files@[i as int]@);
        }
        if files[i].starts_with(dir) {
            out.push(files[i].clone());
            assert(path::path_views(out@) =~= before.push(files@[i as int]@));
        }
        i += 1;
    }
    assert(views.take(i as int) =~= views);
    out
}

/// The report on a whole tree, given how the sync of each of its files went. The first file
/// that could not be synced ends the work.
pub fn sync_tree(results: Vec<Result<FileSyncReport, SyncError>>) -> (report: Result<
    SyncReport,
    SyncError,
>)
    ensures
        match report {
            Ok(r) => {
                &&& r.files@.len() == results@.len()
                &&& forall|i: int|
                    0 <= i < results@.len() ==> (#[trigger] results@[i]) == Ok::<
                        FileSyncReport,
                        SyncError,
                    >(r.files@[i])
            },
            Err(e) => exists|i: int|
                0 <= i < results@.len() && (#[trigger] results@[i]) == Err::<
                    FileSyncReport,
                    SyncError,
                >(e) && forall|j: int| 0 <= j < i ==> (#[trigger] results@[j]) is Ok,
        },
{
    let ghost all = results@;
    let mut files: Vec<FileSyncReport> = Vec::new();
    for result in it: results
        invariant
            it.seq() == all,
            files@.len() == it.index(),
            forall|i: int|
                0 <= i < it.index() ==> (#[trigger] all[i]) == Ok::<FileSyncReport, SyncError>(
                    files@[i],
                ),
    {
        assert(result == all[it.index() as int]);
        match result {
            Ok(file) => {
                files.push(file);
            },
            Err(e) => {
                return Err(e);
            },
        }
    }
    Ok(SyncReport { files })
}

/// Syncing never touches what an annotation is: its id, kind, body, symbol and time of
/// creation. A record that is orphaned keeps its anchor and snippet as well.
pub proof fn lemma_sync_keeps_identity(
    record: RecordView,
    lines: Seq<Seq<u8>>,
    blob: Seq<char>,
    hunks: Option<Seq<(int, int, int, int)>>,
    now: Seq<char>,
)
    ensures
        ({
            let (new, outcome) = synced(record, lines, blob, hunks, now);
            &&& new.id == record.id
            &&& new.kind == record.kind
            &&& new.body == record.body
            &&& new.created_at == record.created_at
            &&& new.anchor.symbol == record.anchor.symbol
            &&& outcome is Orphaned ==> new == orphaned(record, now) && new.anchor
                == record.anchor && new.orig_snippet == record.orig_snippet
            &&& !(outcome is Orphaned) ==> new.status == record.status && new.anchor.base_blob
                == blob
        }),
{
}

/// A record that was brought to a content is left alone by another sync against the same
/// content.
pub proof fn lemma_sync_settles(
    old: RecordView,
    new: RecordView,
    outcome: SyncOutcome,
    again: RecordView,
    second: SyncOutcome,
    content: Option<Seq<u8>>,
    blobs: Seq<BaseBlob>,
    later_blobs: Seq<BaseBlob>,
)
    requires
        file_step(old, new, outcome, content, blobs),
        file_step(new, again, second, content, later_blobs),
    ensures
        again == new,
        second == if new.status == Status::Live {
            SyncOutcome::Unchanged
        } else {
            SyncOutcome::SkippedNotLive
        },
{
}

/// A second sync of all records of a file against the same content changes none of them,
/// and leaves nothing to append.
pub proof fn lemma_second_sync_is_idle(
    old: Seq<RecordView>,
    new: Seq<RecordView>,
    outcomes: Seq<SyncOutcome>,
    again: Seq<RecordView>,
    second: Seq<SyncOutcome>,
    content: Option<Seq<u8>>,
    blobs: Seq<BaseBlob>,
    later_blobs: Seq<BaseBlob>,
)
    requires
        old.len() == new.len() == outcomes.len() == again.len() == second.len(),
        forall|i: int|
            #![trigger new[i]]
            0 <= i < old.len() ==> file_step(old[i], new[i], outcomes[i], content, blobs),
        forall|i: int|
            #![trigger again[i]]
            0 <= i < new.len() ==> file_step(new[i], again[i], second[i], content, later_blobs),
    ensures
        again == new,
        forall|i: int|
            0 <= i < second.len() ==> (#[trigger] second[i]) == if new[i].status == Status::Live {
                SyncOutcome::Unchanged
            } else {
                SyncOutcome::SkippedNotLive
            },
        changed(again, second) == Seq::<RecordView>::empty(),
{
    assert forall|i: int| 0 <= i < second.len() implies again[i] == new[i] && (
    #[trigger] second[i]) == if new[i].status == Status::Live {
        SyncOutcome::Unchanged
    } else {
        SyncOutcome::SkippedNotLive
    } by {
        lemma_sync_settles(
            old[i],
            new[i],
            outcomes[i],
            again[i],
            second[i],
            content,
            blobs,
            later_blobs,
        );
    }
    assert(again =~= new);
    lemma_nothing_changed(again, second);
}

proof fn lemma_nothing_changed(records: Seq<RecordView>, outcomes: Seq<SyncOutcome>)
    requires
        records.len() == outcomes.len(),
        forall|i: int| 0 <= i < outcomes.len() ==> !is_change(#[trigger] outcomes[i]),
    ensures
        changed(records, outcomes) == Seq::<RecordView>::empty(),
    decreases records.len(),
{
    if records.len() > 0 {
        assert(!is_change(outcomes[outcomes.len() - 1]));
        lemma_nothing_changed(records.drop_last(), outcomes.drop_last());
    }
}

/// An outcome that tells of no change goes with an unchanged record.
pub proof fn lemma_unchanged_means_unchanged(
    old: RecordView,
    new: RecordView,
    outcome: SyncOutcome,
    content: Option<Seq<u8>>,
    blobs: Seq<BaseBlob>,
)
    requires
        file_step(old, new, outcome, content, blobs),
    ensures
        !is_change(outcome) ==> new == old,
        is_change(outcome) ==> old.status == Status::Live && (new.status == Status::Orphaned
            || new.anchor.base_blob != old.anchor.base_blob),
        old.status != Status::Live ==> new == old,
{
}

/// Whether an anchor covers lines of a file with the given lines, and describes them.
pub open spec fn describes(anchor: AnchorView, lines: Seq<Seq<u8>>) -> bool {
    &&& 1 <= anchor.start <= anchor.end <= lines.len()
    &&& anchor.line_hashes == lines::hash_texts(
        lines.subrange(anchor.start - 1, anchor.end as int),
    )
    &&& anchor.ctx_before == text::hex_digits(
        lines::before_hash(lines, anchor.start - 1) as nat,
        16,
    )
    &&& anchor.ctx_after == text::hex_digits(
        lines::after_hash(lines, anchor.end as int) as nat,
        16,
    )
}

/// A record that a sync did not orphan describes lines of the new content.
pub proof fn lemma_healed_describes(
    record: RecordView,
    lines: Seq<Seq<u8>>,
    blob: Seq<char>,
    hunks: Option<Seq<(int, int, int, int)>>,
    now: Seq<char>,
)
    requires
        lines.len() <= u32::MAX,
    ensures
        ({
            let (new, outcome) = synced(record, lines, blob, hunks, now);
            !(outcome is Orphaned) ==> describes(new.anchor, lines) && new.orig_snippet == Some(
                lines::snippet_of(lines.subrange(new.anchor.start - 1, new.anchor.end as int)),
            )
        }),
{
    rematch::lemma_match_bounds(
        record.anchor,
        lines,
        expected_at(hunks, record.anchor.start - 1),
    );
}

/// A record that a sync moved or found again is what a fresh anchor on its lines of the
/// current content would make it, but for the symbol, which it keeps.
pub proof fn lemma_healed_is_fresh(
    old: RecordView,
    new: RecordView,
    outcome: SyncOutcome,
    bytes: Seq<u8>,
    blobs: Seq<BaseBlob>,
)
    requires
        file_step(old, new, outcome, Some(bytes), blobs),
        outcome is Refreshed || outcome is Shifted || outcome is Rematched,
    ensures
        ({
            let lines = lines::lines_of(bytes);
            let (a, b) = (new.anchor.start - 1, new.anchor.end as int);
            &&& !lines::looks_binary(bytes)
            &&& lines.len() <= u32::MAX
            &&& in_file(new.anchor.start, new.anchor.end, lines.len() as u32)
            &&& blob_hex(bytes) matches Some(blob) && new.anchor == anchored(
                old.anchor.symbol,
                lines,
                blob,
                a,
                b,
            )
            &&& new.anchor.line_hashes.len() == b - a
            &&& new.orig_snippet == Some(lines::snippet_of(lines.subrange(a, b)))
            &&& new.status == Status::Live
        }),
{
    let lines = lines::lines_of(bytes);
    let hunks = hunks_from(blobs, old.anchor.base_blob, bytes);
    let a = old.anchor.start - 1;
    if outcome is Rematched {
        rematch::lemma_budget(old.anchor.line_hashes.len() as int, lines.len() as int);
        rematch::lemma_match_bounds(old.anchor, lines, expected_at(hunks, a));
    }
    assert(lines.len() <= u32::MAX);
    lemma_healed_describes(old, lines, blob_hex(bytes)->0, hunks, new.updated_at);
}

/// An anchor whose lines the edits left alone moves along with them: it covers the same
/// lines as before.
pub proof fn lemma_untouched_anchor_follows(
    record: RecordView,
    before: Seq<Seq<u8>>,
    after: Seq<Seq<u8>>,
    blob: Seq<char>,
    hunks: Seq<(int, int, int, int)>,
    now: Seq<char>,
)
    requires
        hunks::edits(before, after, hunks),
        after.len() <= u32::MAX,
        !degenerate(record.anchor),
        record.anchor.end <= before.len(),
        forall|i: int|
            0 <= i < hunks.len() ==> (#[trigger] hunks[i]).1 < record.anchor.start
                || record.anchor.end <= hunks[i].0,
    ensures
        ({
            let (new, outcome) = synced(record, after, blob, Some(hunks), now);
            let delta = hunks::delta_above(hunks, record.anchor.start - 1);
            &&& outcome == if delta == 0 {
                SyncOutcome::Refreshed
            } else {
                SyncOutcome::Shifted { delta: delta as i64 }
            }
            &&& new.anchor.start == record.anchor.start + delta
            &&& new.anchor.end == record.anchor.end + delta
            &&& after.subrange(new.anchor.start - 1, new.anchor.end as int) == before.subrange(
                record.anchor.start - 1,
                record.anchor.end as int,
            )
            &&& new.anchor.line_hashes == lines::hash_texts(
                before.subrange(record.anchor.start - 1, record.anchor.end as int),
            )
        }),
{
    hunks::lemma_untouched_span(
        before,
        after,
        hunks,
        record.anchor.start - 1,
        record.anchor.end as int,
    );
}

/// A record whose lines were left alone between the content that it is anchored in and the
/// current one keeps exactly these lines.
pub proof fn lemma_untouched_lines_kept(
    old: RecordView,
    new: RecordView,
    outcome: SyncOutcome,
    before: Seq<u8>,
    bytes: Seq<u8>,
    blobs: Seq<BaseBlob>,
)
    requires
        file_step(old, new, outcome, Some(bytes), blobs),
        old.status == Status::Live,
        !lines::looks_binary(bytes),
        blob_hex(bytes) != Some(old.anchor.base_blob),
        base_content(blobs, old.anchor.base_blob) == Some(before),
        1 <= old.anchor.start <= old.anchor.end <= lines::lines_of(before).len(),
        old.anchor.line_hashes.len() > 0,
        forall|i: int|
            0 <= i < hunks::histogram_hunks(before, bytes).len() ==> (
            #[trigger] hunks::histogram_hunks(before, bytes)[i]).1 < old.anchor.start
                || old.anchor.end <= hunks::histogram_hunks(before, bytes)[i].0,
    ensures
        outcome == if new.anchor.start == old.anchor.start {
            SyncOutcome::Refreshed
        } else {
            SyncOutcome::Shifted { delta: (new.anchor.start - old.anchor.start) as i64 }
        },
        new.anchor.end - new.anchor.start == old.anchor.end - old.anchor.start,
        new.status == Status::Live,
        lines::lines_of(bytes).subrange(new.anchor.start - 1, new.anchor.end as int)
            == lines::lines_of(before).subrange(old.anchor.start - 1, old.anchor.end as int),
        describes(new.anchor, lines::lines_of(bytes)),
{
    let blob = blob_hex(bytes)->0;
    let after = lines::lines_of(bytes);
    let hunks = hunks::histogram_hunks(before, bytes);
    lemma_untouched_anchor_follows(
        old,
        lines::lines_of(before),
        after,
        blob,
        hunks,
        new.updated_at,
    );
    lemma_healed_describes(old, after, blob, Some(hunks), new.updated_at);
}

/// A record that only moved is on the lines that it was on before, word for word, as far from
/// where it was as the outcome says. Nothing else is told of as moved.
pub proof fn lemma_moved_lines_are_the_same(
    old: RecordView,
    new: RecordView,
    outcome: SyncOutcome,
    bytes: Seq<u8>,
    blobs: Seq<BaseBlob>,
)
    requires
        file_step(old, new, outcome, Some(bytes), blobs),
        outcome is Refreshed || outcome is Shifted,
    ensures
        base_content(blobs, old.anchor.base_blob) matches Some(before) && (old.anchor.end
            <= lines::lines_of(before).len() ==> {
            &&& lines::lines_of(bytes).subrange(new.anchor.start - 1, new.anchor.end as int)
                == lines::lines_of(before).subrange(old.anchor.start - 1, old.anchor.end as int)
            &&& new.anchor.end - new.anchor.start == old.anchor.end - old.anchor.start
            &&& 1 <= new.anchor.start <= new.anchor.end <= lines::lines_of(bytes).len()
            &&& new.anchor.start - old.anchor.start == match outcome {
                SyncOutcome::Shifted { delta } => delta as int,
                _ => 0,
            }
            &&& outcome is Shifted ==> new.anchor.start != old.anchor.start
        }),
{
    let before = base_content(blobs, old.anchor.base_blob)->0;
    let hunks = hunks::histogram_hunks(before, bytes);
    let (a, b) = (old.anchor.start - 1, old.anchor.end as int);
    assert(whole_shift(Some(hunks), a, b, lines::lines_of(bytes).len() as int) is Some);
    assert forall|i: int| 0 <= i < hunks.len() implies (#[trigger] hunks[i]).1 <= a || b
        <= hunks[i].0 by {
        if hunks[i].1 > a && hunks[i].0 < b {
            assert(hunks::touches(hunks, a, b));
        }
    }
    if old.anchor.end <= lines::lines_of(before).len() {
        hunks::lemma_untouched_span(
            lines::lines_of(before),
            lines::lines_of(bytes),
            hunks,
            a,
            b,
        );
    }
}

/// An anchor that describes three or more lines, and finds them unchanged anywhere in the
/// new content, is not orphaned, whatever happened to the rest of the file.
pub proof fn lemma_intact_lines_never_orphan(
    record: RecordView,
    lines: Seq<Seq<u8>>,
    blob: Seq<char>,
    hunks: Option<Seq<(int, int, int, int)>>,
    now: Seq<char>,
    at: int,
)
    requires
        !degenerate(record.anchor),
        record.anchor.line_hashes.len() > rematch::SHORT_ANCHOR_LINES,
        rematch::within_budget(record.anchor.line_hashes.len() as int, lines.len() as int),
        0 <= at,
        at + record.anchor.line_hashes.len() <= lines.len(),
        record.anchor.line_hashes == lines::hash_texts(
            lines.subrange(at, at + record.anchor.line_hashes.len()),
        ),
    ensures
        !(synced(record, lines, blob, hunks, now).1 is Orphaned),
{
    rematch::lemma_moved_lines_found(
        record.anchor,
        lines,
        expected_at(hunks, record.anchor.start - 1),
        at,
    );
}

/// A live record is not given up as long as a window of the new content, up to two lines
/// shorter or longer than the record's anchor, is worth enough, whichever of the anchor's lines
/// are looked for in it. If it is found again by its lines, then in no worse a place.
pub proof fn lemma_findable_record_lives(
    old: RecordView,
    new: RecordView,
    outcome: SyncOutcome,
    bytes: Seq<u8>,
    blobs: Seq<BaseBlob>,
    start: int,
    len: int,
    g: int,
    found: Set<int>,
)
    requires
        file_step(old, new, outcome, Some(bytes), blobs),
        old.status == Status::Live,
        !lines::looks_binary(bytes),
        1 <= old.anchor.start <= old.anchor.end,
        old.anchor.line_hashes.len() > 0,
        lines::lines_of(bytes).len() * old.anchor.line_hashes.len() <= 5_000_000,
        -2 <= len - old.anchor.line_hashes.len() <= 2,
        1 <= len,
        0 <= start,
        start + len <= lines::lines_of(bytes).len(),
        rematch::finds(old.anchor, lines::lines_of(bytes), start, len, g, found),
        rematch::worth(
            old.anchor,
            lines::lines_of(bytes),
            start,
            len,
            found.len() as int,
        ) >= if old.anchor.line_hashes.len() <= 2 {
            8000int
        } else {
            6000
        },
    ensures
        !(outcome is Orphaned),
        new.status == Status::Live,
        outcome matches SyncOutcome::Rematched { new_start, new_end, confidence_bp } ==> {
            &&& confidence_bp >= rematch::worth(
                old.anchor,
                lines::lines_of(bytes),
                start,
                len,
                found.len() as int,
            )
            &&& new_start == new.anchor.start
            &&& new_end == new.anchor.end
        },
{
    let lines = lines::lines_of(bytes);
    let hunks = hunks_from(blobs, old.anchor.base_blob, bytes);
    let expected = expected_at(hunks, old.anchor.start - 1);
    rematch::lemma_match_beats_every_window(old.anchor, lines, expected, start, len, g, found);
    rematch::lemma_match_bounds(old.anchor, lines, expected);
}

/// A live record that is given up although its file still holds text has an anchor that names
/// no lines, or is worth too little in every window of the new content.
pub proof fn lemma_orphaned_for_a_reason(
    old: RecordView,
    new: RecordView,
    outcome: SyncOutcome,
    bytes: Seq<u8>,
    blobs: Seq<BaseBlob>,
    start: int,
    len: int,
    g: int,
    found: Set<int>,
)
    requires
        file_step(old, new, outcome, Some(bytes), blobs),
        outcome is Orphaned,
        !lines::looks_binary(bytes),
    ensures
        outcome == (SyncOutcome::Orphaned { reason: OrphanReason::LowConfidence }),
        ({
            ||| old.anchor.start == 0
            ||| old.anchor.start > old.anchor.end
            ||| old.anchor.line_hashes.len() == 0
            ||| lines::lines_of(bytes).len() * old.anchor.line_hashes.len() > 5_000_000
            ||| !(-2 <= len - old.anchor.line_hashes.len() <= 2 && 1 <= len && 0 <= start && start
                + len <= lines::lines_of(bytes).len())
            ||| !rematch::finds(old.anchor, lines::lines_of(bytes), start, len, g, found)
            ||| rematch::worth(
                old.anchor,
                lines::lines_of(bytes),
                start,
                len,
                found.len() as int,
            ) < if old.anchor.line_hashes.len() <= 2 {
                8000int
            } else {
                6000
            }
        }),
{
    let lines = lines::lines_of(bytes);
    let k = old.anchor.line_hashes.len() as int;
    if 1 <= old.anchor.start <= old.anchor.end && k > 0 && lines.len() * k <= 5_000_000 && -2
        <= len - k <= 2 && 1 <= len && 0 <= start && start + len <= lines.len() && rematch::finds(
        old.anchor,
        lines,
        start,
        len,
        g,
        found,
    ) {
        let hunks = hunks_from(blobs, old.anchor.base_blob, bytes);
        let expected = expected_at(hunks, old.anchor.start - 1);
        rematch::lemma_match_beats_every_window(old.anchor, lines, expected, start, len, g, found);
    }
}

/// A record whose lines were edited in one place stays live. It was put on lines of `before`,
/// of which `m`, behind the first `g`, gave way to others, at most two more or fewer; every
/// other line of the file stayed. That the old content can still be looked up is not needed.
pub proof fn lemma_edited_record_lives(
    old: RecordView,
    new: RecordView,
    outcome: SyncOutcome,
    before: Seq<Seq<u8>>,
    bytes: Seq<u8>,
    blobs: Seq<BaseBlob>,
    g: int,
    m: int,
    others: Seq<Seq<u8>>,
)
    requires
        file_step(old, new, outcome, Some(bytes), blobs),
        old.status == Status::Live,
        !lines::looks_binary(bytes),
        1 <= old.anchor.start <= old.anchor.end <= before.len(),
        old.anchor == anchored(
            old.anchor.symbol,
            before,
            old.anchor.base_blob,
            old.anchor.start - 1,
            old.anchor.end as int,
        ),
        0 <= g,
        0 <= m,
        g + m <= old.anchor.end - old.anchor.start + 1,
        -2 <= others.len() - m <= 2,
        1 <= old.anchor.end - old.anchor.start + 1 + others.len() - m,
        lines::lines_of(bytes) == before.take(old.anchor.start - 1 + g) + others + before.skip(
            old.anchor.start - 1 + g + m,
        ),
        lines::lines_of(bytes).len() * (old.anchor.end - old.anchor.start + 1) <= 5_000_000,
    ensures
        ({
            let k = old.anchor.end - old.anchor.start + 1;
            let value = 7000 * (k - m) / k + 3000;
            value >= (if k <= 2 {
                8000int
            } else {
                6000
            }) ==> {
                &&& !(outcome is Orphaned)
                &&& new.status == Status::Live
                &&& outcome matches SyncOutcome::Rematched { confidence_bp, .. } ==> confidence_bp
                    >= value
            }
        }),
{
    let a = old.anchor.start - 1;
    let k = old.anchor.end - old.anchor.start + 1;
    let lines = lines::lines_of(bytes);
    let part = before.subrange(a, old.anchor.end as int);
    assert(old.anchor.line_hashes.len() == k);
    assert forall|i: int| 0 <= i < k implies text::hash_of(#[trigger] old.anchor.line_hashes[i])
        == Some(lines::line_hash(before[a + i])) by {
        assert(part[i] == before[a + i]);
        text::lemma_hash_roundtrip(lines::line_hash(before[a + i]));
    }
    text::lemma_hash_roundtrip(lines::before_hash(before, a));
    text::lemma_hash_roundtrip(lines::after_hash(before, a + k));
    let hunks = hunks_from(blobs, old.anchor.base_blob, bytes);
    let expected = expected_at(hunks, a);
    assert(lines.len() == before.len() + others.len() - m);
    rematch::lemma_edited_span_found(old.anchor, before, a, g, m, others, expected);
    rematch::lemma_match_bounds(old.anchor, lines, expected);
}

/// A live record on a freshly made anchor is unchanged as long as its file is.
pub proof fn lemma_fresh_anchor_unchanged(
    old: RecordView,
    new: RecordView,
    outcome: SyncOutcome,
    bytes: Seq<u8>,
    blobs: Seq<BaseBlob>,
)
    requires
        old.status == Status::Live,
        !lines::looks_binary(bytes),
        blob_hex(bytes) == Some(old.anchor.base_blob),
        file_step(old, new, outcome, Some(bytes), blobs),
    ensures
        new == old,
        outcome is Unchanged,
{
}

/// What is written back are records of the file, and exactly those that were changed.
proof fn lemma_changed_latest(records: Seq<RecordView>, outcomes: Seq<SyncOutcome>)
    requires
        fold::ascending(records),
        outcomes.len() == records.len(),
    ensures
        forall|id: Ulid| #[trigger]
            fold::latest(changed(records, outcomes)).dom().contains(id) ==> fold::latest(
                records,
            ).dom().contains(id) && fold::latest(changed(records, outcomes))[id] == fold::latest(
                records,
            )[id],
        forall|i: int|
            0 <= i < records.len() ==> (is_change(outcomes[i]) <==> fold::latest(
                changed(records, outcomes),
            ).dom().contains((#[trigger] records[i]).id)),
    decreases records.len(),
{
    if records.len() > 0 {
        let rest = records.drop_last();
        let outs = outcomes.drop_last();
        let last = records.last();
        fold::lemma_fresh_last(records);
        lemma_changed_latest(rest, outs);
        let before = fold::latest(changed(rest, outs));
        let after = fold::latest(changed(records, outcomes));
        if is_change(outcomes.last()) {
            assert(changed(records, outcomes).drop_last() =~= changed(rest, outs));
            assert(after == before.insert(last.id, last));
        }
        assert(!before.dom().contains(last.id));
        assert forall|i: int| 0 <= i < records.len() implies (is_change(outcomes[i])
            <==> after.dom().contains((#[trigger] records[i]).id)) by {
            if i < rest.len() {
                assert(rest[i] == records[i]);
                assert(records[i].id.0 < records[records.len() - 1].id.0);
                assert(outs[i] == outcomes[i]);
            }
        }
    }
}

/// Appending what a sync of a log's records changed makes the log add up to the synced
/// records: loading after a sync gives what the sync reported.
pub proof fn lemma_writeback_persists(
    log: Seq<RecordView>,
    old: Seq<RecordView>,
    new: Seq<RecordView>,
    outcomes: Seq<SyncOutcome>,
    content: Option<Seq<u8>>,
    blobs: Seq<BaseBlob>,
)
    requires
        fold::is_folded(log, old),
        new.len() == old.len(),
        outcomes.len() == old.len(),
        forall|i: int|
            0 <= i < old.len() ==> file_step(
                old[i],
                #[trigger] new[i],
                outcomes[i],
                content,
                blobs,
            ),
    ensures
        fold::is_folded(log + changed(new, outcomes), new),
{
    let added = changed(new, outcomes);
    assert forall|i: int| 0 <= i < old.len() implies (#[trigger] new[i]).id == old[i].id
        && new[i].status != Status::Tombstone && (!is_change(outcomes[i]) ==> new[i]
        == old[i]) by {
        fold::lemma_fold_holds_survivors(log, old, i);
    }
    assert forall|i: int, j: int| 0 <= i < j < new.len() implies (#[trigger] new[i]).id.0 < (
    #[trigger] new[j]).id.0 by {
        assert(old[i].id.0 < old[j].id.0);
    }
    lemma_changed_latest(new, outcomes);
    fold::lemma_latest_append(log, added);
    let got = fold::latest(new);
    let want = fold::living(fold::latest(log + added));
    assert forall|id: Ulid|
        #![trigger got.dom().contains(id)]
        #![trigger want.dom().contains(id)]
        #![trigger got[id]]
        got.dom().contains(id) == want.dom().contains(id) && (got.dom().contains(id) ==> got[id]
            == want[id]) by {
        fold::lemma_latest_known(new, id);
        fold::lemma_latest_known(old, id);
        if got.dom().contains(id) {
            let i = choose|i: int| 0 <= i < new.len() && (#[trigger] new[i]).id == id;
            fold::lemma_ascending_latest(new, i);
            fold::lemma_ascending_latest(old, i);
            if !is_change(outcomes[i]) {
                assert(!fold::latest(added).dom().contains(new[i].id));
            }
        }
        if want.dom().contains(id) {
            if !fold::latest(added).dom().contains(id) {
                assert(fold::latest(old).dom().contains(id));
                let i = choose|i: int| 0 <= i < old.len() && (#[trigger] old[i]).id == id;
                assert(new[i].id == id);
            }
        }
    }
    assert(got =~= want);
}

/// The same of the log itself: once the lines of the changed records are appended to a log
/// that is empty or ends in a line feed, loading it gives what the sync reported.
pub proof fn lemma_loaded_after_sync(
    log: Seq<char>,
    parse: spec_fn(Seq<char>) -> Option<RecordView>,
    old: Seq<RecordView>,
    new: Seq<RecordView>,
    outcomes: Seq<SyncOutcome>,
    content: Option<Seq<u8>>,
    blobs: Seq<BaseBlob>,
    added: Seq<Seq<char>>,
)
    requires
        log::is_continuable(log),
        log::records_in(log, parse) is Ok,
        fold::is_folded(log::records_in(log, parse)->Ok_0, old),
        new.len() == old.len(),
        outcomes.len() == old.len(),
        forall|i: int|
            0 <= i < old.len() ==> file_step(
                old[i],
                #[trigger] new[i],
                outcomes[i],
                content,
                blobs,
            ),
        added.len() == changed(new, outcomes).len(),
        forall|i: int| 0 <= i < added.len() ==> log::is_log_line(#[trigger] added[i]),
        forall|i: int|
            0 <= i < added.len() ==> parse(#[trigger] added[i]) == Some(changed(new, outcomes)[i]),
    ensures
        log::records_in(log + segments::terminate(added, '\n'), parse) matches Ok(raw)
            && fold::is_folded(raw, new),
        fold::ascending(new),
{
    let raw = log::records_in(log, parse)->Ok_0;
    log::lemma_records_read_back(log, added, changed(new, outcomes), parse);
    lemma_writeback_persists(raw, old, new, outcomes, content, blobs);
}

/// What is written back are the records whose outcome tells that they were moved, found again
/// or given up, in order and nothing else.
pub proof fn lemma_changed_are_written_back(records: Seq<RecordView>, outcomes: Seq<SyncOutcome>)
    requires
        records.len() == outcomes.len(),
    ensures
        changed(records, outcomes) == Seq::new(
            records.len(),
            |i: int| (records[i], outcomes[i]),
        ).filter(
            |p: (RecordView, SyncOutcome)|
                p.1 is Refreshed || p.1 is Shifted || p.1 is Rematched || p.1 is Orphaned,
        ).map_values(|p: (RecordView, SyncOutcome)| p.0),
    decreases records.len(),
{
    reveal(Seq::filter);
    let told = |p: (RecordView, SyncOutcome)|
        p.1 is Refreshed || p.1 is Shifted || p.1 is Rematched || p.1 is Orphaned;
    let first = |p: (RecordView, SyncOutcome)| p.0;
    let pairs = Seq::new(records.len(), |i: int| (records[i], outcomes[i]));
    if records.len() == 0 {
        assert(changed(records, outcomes) =~= pairs.filter(told).map_values(first));
    } else {
        let fewer = records.drop_last();
        let rest = outcomes.drop_last();
        lemma_changed_are_written_back(fewer, rest);
        assert(pairs.drop_last() =~= Seq::new(fewer.len(), |i: int| (fewer[i], rest[i])));
        assert(pairs.last() == (records.last(), outcomes.last()));
        assert(changed(records, outcomes) =~= pairs.filter(told).map_values(first));
    }
}

/// The contents that are looked up are those that live records name, other than the current
/// one, each once.
pub proof fn lemma_lookups_are_stale(records: Seq<RecordView>, blob: Seq<char>, hex: Seq<char>)
    ensures
        stale_blobs(records, blob).no_duplicates(),
        stale_blobs(records, blob).contains(hex) <==> hex != blob && exists|i: int|
            0 <= i < records.len() && (#[trigger] records[i]).status == Status::Live
                && records[i].anchor.base_blob == hex,
    decreases records.len(),
{
    if records.len() > 0 {
        let fewer = records.drop_last();
        let found = stale_blobs(fewer, blob);
        let all = stale_blobs(records, blob);
        let last = records[records.len() - 1];
        lemma_lookups_are_stale(fewer, blob, hex);
        if found.contains(hex) {
            let k = choose|k: int| 0 <= k < found.len() && found[k] == hex;
            assert(all[k] == hex);
            let i = choose|i: int|
                0 <= i < fewer.len() && (#[trigger] fewer[i]).status == Status::Live
                    && fewer[i].anchor.base_blob == hex;
            assert(records[i].anchor.base_blob == hex);
        }
        if all.contains(hex) && !found.contains(hex) {
            let k = choose|k: int| 0 <= k < all.len() && all[k] == hex;
            assert(k >= found.len() || found[k] == hex);
            assert(last.anchor.base_blob == hex);
        }
        if exists|i: int|
            0 <= i < records.len() && (#[trigger] records[i]).status == Status::Live
                && records[i].anchor.base_blob == hex {
            let i = choose|i: int|
                0 <= i < records.len() && (#[trigger] records[i]).status == Status::Live
                    && records[i].anchor.base_blob == hex;
            if i < fewer.len() {
                assert(fewer[i].anchor.base_blob == hex);
            } else if hex != blob && !found.contains(hex) {
                assert(all[all.len() - 1] == hex);
            }
        }
    }
}

/// What is known under an object id is what the first entry of that id says.
pub proof fn lemma_first_entry_counts(blobs: Seq<BaseBlob>, hex: Seq<char>, i: int)
    requires
        0 <= i < blobs.len(),
        blobs[i].hex@ == hex,
        forall|j: int| 0 <= j < i ==> (#[trigger] blobs[j]).hex@ != hex,
    ensures
        base_content(blobs, hex) == match blobs[i].content {
            Some(c) => Some(c@),
            None => None,
        },
    decreases blobs.len(),
{
    if i > 0 {
        let rest = blobs.skip(1);
        assert(blobs[0].hex@ != hex);
        assert forall|j: int| 0 <= j < i - 1 implies (#[trigger] rest[j]).hex@ != hex by {
            assert(rest[j] == blobs[j + 1]);
        }
        assert(rest[i - 1] == blobs[i]);
        lemma_first_entry_counts(rest, hex, i - 1);
    }
}

/// Nothing is known under an object id that no entry has.
pub proof fn lemma_no_entry_counts_not(blobs: Seq<BaseBlob>, hex: Seq<char>)
    requires
        forall|j: int| 0 <= j < blobs.len() ==> (#[trigger] blobs[j]).hex@ != hex,
    ensures
        base_content(blobs, hex) is None,
    decreases blobs.len(),
{
    if blobs.len() > 0 {
        let rest = blobs.skip(1);
        assert(blobs[0].hex@ != hex);
        assert forall|j: int| 0 <= j < rest.len() implies (#[trigger] rest[j]).hex@ != hex by {
            assert(rest[j] == blobs[j + 1]);
        }
        lemma_no_entry_counts_not(rest, hex);
    }
}

/// What a sync does to a record, whatever the content of its file: a record that is not live
/// stays as it is; one whose file is gone, or holds no text, is given up; one that is anchored
/// in the current content stays as it is. Whatever happens, its id, kind, body, symbol and time
/// of creation stay, and a record that is given up keeps its anchor and snippet, too.
pub proof fn lemma_sync_of_a_record(
    old: RecordView,
    new: RecordView,
    outcome: SyncOutcome,
    content: Option<Seq<u8>>,
    blobs: Seq<BaseBlob>,
)
    requires
        file_step(old, new, outcome, content, blobs),
    ensures
        new.id == old.id,
        new.kind == old.kind,
        new.body == old.body,
        new.created_at == old.created_at,
        new.anchor.symbol == old.anchor.symbol,
        outcome is SkippedNotLive <==> old.status != Status::Live,
        outcome is SkippedNotLive || outcome is Unchanged ==> new == old,
        outcome is Orphaned ==> new.status == Status::Orphaned && new.anchor == old.anchor
            && new.orig_snippet == old.orig_snippet,
        outcome is Refreshed || outcome is Shifted || outcome is Rematched ==> new.status
            == Status::Live,
        old.status == Status::Live && content is None ==> outcome == (SyncOutcome::Orphaned {
            reason: OrphanReason::FileMissing,
        }),
        old.status == Status::Live && (content matches Some(bytes) && exists|i: int|
            0 <= i < bytes.len() && i < 8192 && #[trigger] bytes[i] == 0) ==> outcome == (
        SyncOutcome::Orphaned { reason: OrphanReason::LowConfidence }),
        outcome is Unchanged <==> old.status == Status::Live && (content matches Some(bytes)
            && !lines::looks_binary(bytes) && blob_hex(bytes) == Some(old.anchor.base_blob)),
{
    if let Some(bytes) = content {
        if exists|i: int| 0 <= i < bytes.len() && i < 8192 && #[trigger] bytes[i] == 0 {
            let i = choose|i: int| 0 <= i < bytes.len() && i < 8192 && #[trigger] bytes[i] == 0;
            assert(lines::looks_binary(bytes));
        }
    }
}

/// Of windows that are worth the same, a record is found again in the one closest to where its
/// first line is expected: moved by as much as the last hunk that ends above it, or at its old
/// place where the old content is not known. After that the one closest to the length of the
/// anchor counts, then the first, then the shorter.
pub proof fn lemma_found_near_its_place(
    old: RecordView,
    new: RecordView,
    outcome: SyncOutcome,
    bytes: Seq<u8>,
    blobs: Seq<BaseBlob>,
    above: int,
    start: int,
    len: int,
    g: int,
    found: Set<int>,
)
    requires
        file_step(old, new, outcome, Some(bytes), blobs),
        outcome is Rematched,
        base_content(blobs, old.anchor.base_blob) matches Some(before) ==> {
            let hunks = hunks::histogram_hunks(before, bytes);
            &&& 0 <= above <= hunks.len()
            &&& forall|j: int| 0 <= j < above ==> (#[trigger] hunks[j]).1 < old.anchor.start
            &&& forall|j: int|
                above <= j < hunks.len() ==> (#[trigger] hunks[j]).1 >= old.anchor.start
        },
        -2 <= len - old.anchor.line_hashes.len() <= 2,
        1 <= len,
        0 <= start,
        start + len <= lines::lines_of(bytes).len(),
        rematch::finds(old.anchor, lines::lines_of(bytes), start, len, g, found),
    ensures
        outcome matches SyncOutcome::Rematched { new_start, new_end, confidence_bp } && ({
            let k = old.anchor.line_hashes.len() as int;
            let expected = old.anchor.start - 1 + match base_content(
                blobs,
                old.anchor.base_blob,
            ) {
                Some(before) => if above == 0 {
                    0
                } else {
                    hunks::histogram_hunks(before, bytes)[above - 1].3 - hunks::histogram_hunks(
                        before,
                        bytes,
                    )[above - 1].1
                },
                None => 0,
            };
            let value = rematch::worth(
                old.anchor,
                lines::lines_of(bytes),
                start,
                len,
                found.len() as int,
            );
            let s = new_start - 1;
            let l = new_end - new_start + 1;
            let off = if s >= expected {
                s - expected
            } else {
                expected - s
            };
            let other = if start >= expected {
                start - expected
            } else {
                expected - start
            };
            let drift = if l >= k {
                l - k
            } else {
                k - l
            };
            let other_drift = if len >= k {
                len - k
            } else {
                k - len
            };
            &&& new_start == new.anchor.start
            &&& new_end == new.anchor.end
            &&& confidence_bp >= value
            &&& confidence_bp == value ==> {
                ||| off < other
                ||| off == other && drift < other_drift
                ||| off == other && drift == other_drift && s < start
                ||| off == other && drift == other_drift && s == start && l <= len
            }
        }),
{
    let lines = lines::lines_of(bytes);
    let a = old.anchor.start - 1;
    let hunks = hunks_from(blobs, old.anchor.base_blob, bytes);
    let expected = expected_at(hunks, a);
    if let Some(before) = base_content(blobs, old.anchor.base_blob) {
        hunks::lemma_moved_like_last_hunk(
            lines::lines_of(before),
            lines,
            hunks::histogram_hunks(before, bytes),
            a,
            above,
        );
    }
    let k = old.anchor.line_hashes.len() as int;
    let at = rematch::lemma_match_is_found(old.anchor, lines, expected);
    rematch::lemma_budget(k, lines.len() as int);
    rematch::lemma_match_bounds(old.anchor, lines, expected);
    rematch::lemma_match_beats_every_window(old.anchor, lines, expected, start, len, g, found);
}

/// A range of lines is accepted if and only if it is one: it starts at the first line or behind
/// it, does not end before it starts, and does not end behind the last line.
pub proof fn lemma_range_in_file(start: u32, end: u32, line_count: u32)
    ensures
        in_file(start, end, line_count) <==> 0 < start && start <= end && end <= line_count,
{
}

/// An anchor on the lines `a..b`, counted from zero, of a file names them from one on, and holds
/// the hash of each of them, those of what is above and below, and the object id of the content.
pub proof fn lemma_anchor_tells(
    symbol: Option<Seq<char>>,
    lines: Seq<Seq<u8>>,
    blob: Seq<char>,
    a: int,
    b: int,
)
    requires
        0 <= a < b <= lines.len(),
        b <= u32::MAX,
    ensures
        ({
            let anchor = anchored(symbol, lines, blob, a, b);
            &&& anchor.start == a + 1
            &&& anchor.end == b
            &&& anchor.base_blob == blob
            &&& anchor.symbol == symbol
            &&& anchor.line_hashes.len() == b - a
            &&& forall|i: int|
                0 <= i < b - a ==> text::hash_of(#[trigger] anchor.line_hashes[i]) == Some(
                    lines::line_hash(lines[a + i]),
                ) && anchor.line_hashes[i].len() == 16
            &&& text::hash_of(anchor.ctx_before) == Some(lines::before_hash(lines, a))
            &&& text::hash_of(anchor.ctx_after) == Some(lines::after_hash(lines, b))
        }),
{
    let anchor = anchored(symbol, lines, blob, a, b);
    let part = lines.subrange(a, b);
    assert forall|i: int| 0 <= i < b - a implies text::hash_of(#[trigger] anchor.line_hashes[i])
        == Some(lines::line_hash(lines[a + i])) && anchor.line_hashes[i].len() == 16 by {
        assert(part[i] == lines[a + i]);
        text::lemma_hash_roundtrip(lines::line_hash(lines[a + i]));
    }
    text::lemma_hash_roundtrip(lines::before_hash(lines, a));
    text::lemma_hash_roundtrip(lines::after_hash(lines, b));
}

/// A live record whose anchor names no lines is given up as soon as its file holds another
/// content than the one that it is anchored in.
pub proof fn lemma_lost_anchor(
    old: RecordView,
    new: RecordView,
    outcome: SyncOutcome,
    bytes: Seq<u8>,
    blobs: Seq<BaseBlob>,
)
    requires
        file_step(old, new, outcome, Some(bytes), blobs),
        old.status == Status::Live,
        !lines::looks_binary(bytes),
        blob_hex(bytes) != Some(old.anchor.base_blob),
        old.anchor.start == 0 || old.anchor.start > old.anchor.end || old.anchor.line_hashes.len()
            == 0,
    ensures
        outcome == (SyncOutcome::Orphaned { reason: OrphanReason::LowConfidence }),
        new.status == Status::Orphaned,
{
}

/// A path that is given to a sync is taken from the root of the repository.
pub proof fn lemma_synced_file(root: Seq<path::Part>, rel: Seq<path::Part>)
    requires
        path::is_absolute(root),
    ensures
        ({
            let place = path::normal_form(
                if rel.len() > 0 && rel[0] is Root {
                    rel
                } else {
                    root + rel
                },
            );
            let annot = path::Part::Normal(vstd::utf8::encode_utf8(".annot"@));
            match named_file(root, rel) {
                Ok(named) => place == root + named && !(named.len() > 0 && named[0] == annot),
                Err(Refusal::Outside(p)) => p == place && !root.is_prefix_of(place),
                Err(Refusal::Reserved(p)) => place == root + p && p.len() > 0 && p[0] == annot,
            }
        }),
{
    let whole = path::joined(root, rel);
    store::lemma_source_rel_decides(root, whole, root);
    path::lemma_joined(root, rel);
    assert(whole.len() > 0 && whole[0] is Root) by {
        if !path::is_absolute(rel) {
            assert(whole[0] == root[0]);
        }
    }
}

/// The contents to look up are met in the order of the records.
pub proof fn lemma_lookups_in_order(records: Seq<RecordView>, blob: Seq<char>, n: int)
    requires
        0 <= n <= records.len(),
    ensures
        stale_blobs(records.take(n), blob).is_prefix_of(stale_blobs(records, blob)),
    decreases records.len(),
{
    if n == records.len() {
        assert(records.take(n) =~= records);
    } else {
        lemma_lookups_in_order(records.drop_last(), blob, n);
        assert(records.drop_last().take(n) =~= records.take(n));
    }
}

} // verus!
