use std::time::Duration;

use annot::clock::{civil_from_days, now_rfc3339, rfc3339_from_millis, rfc3339_of_reading};
use annot::commands::{
    compact_summary, get_allowed, missing_message, parse_add, parse_kinds, parse_range,
    parse_reanchor_target, parse_resolution, reanchor_annotation, AddError, KindsError, RangeError,
    Resolution, ResolveError,
};
use annot::compact::{
    ends_compaction, lock_refused, plan_mirror_write, CompactOptions, CompactStats, MirrorChange,
};
use annot::context::{escape_attr, escape_body, truncate_at_char_boundary, truncated_block};
use annot::fold::fold_last_wins;
use annot::hunks::{can_compare, classify_hunks, hunks_since, HunkRanges};
use annot::id::IdError;
use annot::lines::{
    ctx_hash, hash64, is_binary, leading_u64, normalize, split_lines, FileIndex,
    BINARY_SNIFF_BYTES,
};
use annot::log::{log_lines, LogLine};
use annot::model::{Anchor, Kind, Record, Status, Ulid};
use annot::path::{normalize_lexically, Component, TreePath};
use annot::rematch::{best_alignment, rematch, SCAN_OP_BUDGET, W_CTX_BP, W_POS_BP};
use annot::store::{is_mirror_name, Store, StoreError, ANNOT_DIR, LOCK_FILE};
use annot::strings::{first_line_of, replace};
use annot::sync::{
    anchor_at, blob_oid, blobs_to_read, files_to_sync, mutates_record, record_write_back, sync_one,
    sync_path, sync_tree, FileSyncReport, OrphanReason, SyncError, SyncOutcome, SyncReport,
    SyncedFile, Syncer,
};
use annot::text::{hex16, parse_hash};

fn path(text: &str) -> TreePath {
    let mut components = Vec::new();
    if text.starts_with('/') {
        components.push(Component::Root);
    }
    for (i, part) in text.split('/').enumerate() {
        match part {
            "" => {}
            "." if i > 0 => {}
            "." => components.push(Component::Cur),
            ".." => components.push(Component::Parent),
            name => components.push(Component::Normal(name.as_bytes().to_vec())),
        }
    }
    TreePath { components }
}

fn sample_anchor() -> Anchor {
    Anchor {
        base_blob: "a".repeat(40),
        start: 141,
        end: 158,
        line_hashes: vec!["0123456789abcdef".to_string(); 18],
        ctx_before: "fedcba9876543210".to_string(),
        ctx_after: "1111111111111111".to_string(),
        symbol: Some("fn parse_expr".to_string()),
    }
}

fn anchor() -> Anchor {
    Anchor {
        base_blob: "b".repeat(40),
        start: 1,
        end: 1,
        line_hashes: vec!["0000000000000000".to_string()],
        ctx_before: String::new(),
        ctx_after: String::new(),
        symbol: None,
    }
}

fn record(body: &str) -> Record {
    Record::new(Kind::Decision, body.to_string(), anchor())
}

fn new_store() -> Store {
    Store::open(path("/repo"))
}

// --- clock -------------------------------------------------------------------

#[test]
fn rfc3339_from_millis_known_epochs() {
    assert_eq!(rfc3339_from_millis(0), "1970-01-01T00:00:00.000Z");
    assert_eq!(rfc3339_from_millis(7), "1970-01-01T00:00:00.007Z");
    assert_eq!(
        rfc3339_from_millis(1_709_164_800_000),
        "2024-02-29T00:00:00.000Z"
    );
    assert_eq!(
        rfc3339_from_millis(1_785_693_791_123),
        "2026-08-02T18:03:11.123Z"
    );
}

#[test]
fn a_clock_before_the_epoch_reads_as_the_epoch() {
    assert_eq!(rfc3339_of_reading(None), "1970-01-01T00:00:00.000Z");
    assert_eq!(
        rfc3339_of_reading(Some(1_785_693_791_123)),
        "2026-08-02T18:03:11.123Z"
    );
    // Only the lowest 64 bits of a reading count.
    assert_eq!(
        rfc3339_of_reading(Some((1u128 << 64) + 7)),
        "1970-01-01T00:00:00.007Z"
    );
}

#[test]
fn timestamps_sort_like_the_instants() {
    let instants = [
        0,
        1,
        999,
        1_000,
        59_999,
        60_000,
        3_599_999,
        3_600_000,
        86_399_999,
        86_400_000,
        951_782_399_999,
        951_782_400_000,
        1_785_693_791_123,
        253_402_300_799_999,
    ];
    for pair in instants.windows(2) {
        assert!(rfc3339_from_millis(pair[0]) < rfc3339_from_millis(pair[1]));
    }
    assert_eq!(
        rfc3339_from_millis(253_402_300_799_999),
        "9999-12-31T23:59:59.999Z"
    );
}

#[test]
fn civil_dates_around_leap_days_and_before_the_epoch() {
    assert_eq!(civil_from_days(0), (1970, 1, 1));
    assert_eq!(civil_from_days(-1), (1969, 12, 31));
    assert_eq!(civil_from_days(11_016), (2000, 2, 29));
    assert_eq!(civil_from_days(11_017), (2000, 3, 1));
    assert_eq!(civil_from_days(-719_162), (1, 1, 1));
    assert_eq!(civil_from_days(-719_163), (0, 12, 31));
    assert_eq!(civil_from_days(47_540), (2100, 2, 28));
    assert_eq!(civil_from_days(47_541), (2100, 3, 1));
}

#[test]
fn the_current_time_has_the_documented_form() {
    let now = now_rfc3339();
    assert_eq!(now.len(), 24);
    assert!(now.ends_with('Z'));
    assert!(now.as_str() > "2024-01-01T00:00:00.000Z");
}

// --- model -------------------------------------------------------------------

#[test]
fn anchor_line_count() {
    assert_eq!(sample_anchor().line_count(), 18);
}

#[test]
fn record_new_sets_live_ulid_and_timestamps() {
    let before = now_rfc3339();
    let record = Record::new(Kind::Todo, "todo body".to_string(), sample_anchor());
    let after = now_rfc3339();
    assert_eq!(record.status, Status::Live);
    assert!(record.orig_snippet.is_none());
    assert_eq!(record.created_at, record.updated_at);
    assert!(record.created_at.as_str() >= before.as_str());
    assert!(record.created_at.as_str() <= after.as_str());
}

#[test]
fn mark_tombstone_and_orphan_touch_updated_at() {
    let mut record = Record::new(Kind::History, "h".to_string(), sample_anchor());
    let created = record.created_at.clone();

    record.orphan();
    assert_eq!(record.status, Status::Orphaned);
    assert!(record.updated_at.as_str() >= created.as_str());

    record.mark_tombstone();
    assert_eq!(record.status, Status::Tombstone);
}

#[test]
fn kind_status_serde_and_fromstr() {
    for kind in Kind::ALL {
        let s = kind.to_string();
        assert_eq!(s.parse::<Kind>().unwrap(), kind);
        let json = serde_json::to_string(kind.as_str()).unwrap();
        assert_eq!(json, format!("\"{s}\""));
        let back: String = serde_json::from_str(&json).unwrap();
        assert_eq!(back.parse::<Kind>().unwrap(), kind);
    }
    assert!("bogus".parse::<Kind>().is_err());

    for status in [Status::Live, Status::Orphaned, Status::Tombstone] {
        let s = status.to_string();
        assert_eq!(s.parse::<Status>().unwrap(), status);
        let json = serde_json::to_string(status.as_str()).unwrap();
        assert_eq!(json, format!("\"{s}\""));
    }
    assert!("bogus".parse::<Status>().is_err());
}

#[test]
fn an_unknown_word_comes_back_in_the_error() {
    assert_eq!("Todo".parse::<Kind>().unwrap_err().0, "Todo");
    assert_eq!("".parse::<Status>().unwrap_err().0, "");
    assert_eq!(Kind::from_str("gotcha").unwrap(), Kind::Gotcha);
    assert_eq!(Status::from_str("gone").unwrap_err().0, "gone");
    assert_eq!(Kind::History.as_str(), "history");
    assert_eq!(Status::Tombstone.as_str(), "tombstone");
}

#[test]
fn a_clone_is_equal_to_its_record() {
    let mut original = Record::new(Kind::Todo, "todo body".to_string(), sample_anchor());
    original.orig_snippet = Some("snippet".to_string());
    assert_eq!(original.clone(), original);
}

// --- identifiers ---------------------------------------------------------------

#[test]
fn ulid_generate_round_trips_as_26_char_crockford_string_via_json() {
    let id = Ulid::generate();
    let encoded = id.to_string();
    let mut wrapper = serde_json::Map::new();
    wrapper.insert(
        "id".to_string(),
        serde_json::Value::String(encoded.clone()),
    );

    let json = serde_json::to_string(&serde_json::Value::Object(wrapper)).unwrap();
    assert_eq!(encoded.len(), 26);
    assert_eq!(json, format!(r#"{{"id":"{encoded}"}}"#));

    let decoded: serde_json::Value = serde_json::from_str(&json).unwrap();
    let text = decoded["id"].as_str().unwrap();
    assert_eq!(Ulid::from_string(text).unwrap(), id);
}

#[test]
fn identifiers_are_written_and_read_in_base_32() {
    let id = Ulid(0x41414141414141414141414141414141);
    assert_eq!(id.to_string(), "21850M2GA1850M2GA1850M2GA1");
    assert_eq!(Ulid::from_string("21850M2GA1850M2GA1850M2GA1"), Ok(id));
    assert_eq!(Ulid::from_string("21850m2ga1850m2ga1850m2ga1"), Ok(id));
    assert_eq!(Ulid(0).to_string(), "0".repeat(26));
    assert_eq!(
        Ulid(u128::MAX).to_string(),
        "7ZZZZZZZZZZZZZZZZZZZZZZZZZ"
    );
    // Bits beyond the lowest 128 do not count.
    assert_eq!(
        Ulid::from_string("ZZZZZZZZZZZZZZZZZZZZZZZZZZ"),
        Ok(Ulid(u128::MAX))
    );
}

#[test]
fn a_text_that_is_no_identifier_is_refused() {
    assert_eq!(Ulid::from_string(""), Err(IdError::InvalidLength));
    assert_eq!(Ulid::from_string("0000"), Err(IdError::InvalidLength));
    let mut bad = "0".repeat(25);
    bad.push('U');
    assert_eq!(Ulid::from_string(&bad), Err(IdError::InvalidChar));
    let mut wide = "0".repeat(24);
    wide.push('\u{e9}');
    assert_eq!(Ulid::from_string(&wide), Err(IdError::InvalidChar));
    let mut long = "0".repeat(25);
    long.push('\u{e9}');
    assert_eq!(Ulid::from_string(&long), Err(IdError::InvalidLength));
}

// --- lines ---------------------------------------------------------------------

fn lines_of(text: &str) -> Vec<String> {
    split_lines(text.as_bytes())
        .iter()
        .map(|l| String::from_utf8_lossy(l).into_owned())
        .collect()
}

#[test]
fn split_lines_drops_only_the_trailing_newline_segment() {
    assert!(lines_of("").is_empty());
    assert_eq!(lines_of("a\n"), ["a"]);
    assert_eq!(lines_of("a"), ["a"]);
    assert_eq!(lines_of("a\nb\n"), ["a", "b"]);
    assert_eq!(lines_of("a\n\n"), ["a", ""]);
    assert_eq!(lines_of("\n"), [""]);
}

#[test]
fn hashes_are_16_hex_and_ignore_trailing_whitespace() {
    let plain = hash64(&[normalize(b"let x = 1;")]);
    assert_eq!(plain, hash64(&[normalize(b"let x = 1;  \t")]));
    assert_eq!(plain, hash64(&[normalize(b"let x = 1;\r")]));
    assert_ne!(plain, hash64(&[normalize(b"let x = 2;")]));

    let hex = hex16(plain);
    assert_eq!(hex.len(), 16);
    assert!(hex
        .chars()
        .all(|c| c.is_ascii_hexdigit() && !c.is_uppercase()));
    assert_eq!(parse_hash(&hex), Some(plain));
    assert_eq!(parse_hash("nope"), None);
}

#[test]
fn lines_put_together_give_the_file_back() {
    for text in ["", "a", "a\n", "a\n\nb", "\n", "\n\n", "a\r\nb\n"] {
        let mut joined = lines_of(text).join("\n");
        if text.ends_with('\n') {
            joined.push('\n');
        }
        assert_eq!(joined, text);
    }
}

#[test]
fn hashes_are_the_head_of_a_sha1_digest() {
    // SHA-1 of "abc" is a9993e364706816aba3e25717850c26c9cd0d89d.
    assert_eq!(hash64(&[b"abc".as_slice()]), 0xa999_3e36_4706_816a);
    // SHA-1 of the empty input is da39a3ee5e6b4b0d3255bfef95601890afd80709.
    assert_eq!(hash64(&[]), 0xda39_a3ee_5e6b_4b0d);
    // Two parts are joined by a newline.
    assert_eq!(
        hash64(&[b"a".as_slice(), b"b".as_slice()]),
        hash64(&[b"a\nb".as_slice()])
    );
    assert_eq!(
        leading_u64(&Some(vec![0, 0, 0, 0, 0, 0, 1, 2, 3, 4])),
        0x0102
    );
    assert_eq!(leading_u64(&None), 0);
}

#[test]
fn stored_hashes_are_read_with_either_case_and_a_sign() {
    assert_eq!(parse_hash("00000000000000FF"), Some(255));
    assert_eq!(parse_hash("00000000000000ff"), Some(255));
    assert_eq!(parse_hash("+0000000000000ff"), Some(255));
    assert_eq!(parse_hash("-0000000000000ff"), None);
    assert_eq!(parse_hash("0000000000000ff"), None);
    assert_eq!(parse_hash("00000000000000gg"), None);
    assert_eq!(hex16(0xdead_beef), "00000000deadbeef");
}

#[test]
fn zero_line_context_hashes_the_empty_input() {
    let empty: [&[u8]; 0] = [];
    assert_eq!(ctx_hash(&[]), hash64(&empty));
    assert_ne!(ctx_hash(&[]), hash64(&[b"".as_slice(), b"".as_slice()]));
}

#[test]
fn file_index_context_covers_both_file_edges() {
    let index = FileIndex::build(b"l1\nl2\nl3\nl4\nl5\n");
    assert_eq!(index.len(), 5);
    assert_eq!(index.ctx_before_at[0], ctx_hash(&[]));
    assert_eq!(index.ctx_after_at[5], ctx_hash(&[]));
    assert_eq!(
        index.ctx_before_at[4],
        ctx_hash(&[b"l2".as_slice(), b"l3", b"l4"])
    );
    assert_eq!(
        index.ctx_after_at[1],
        ctx_hash(&[b"l2".as_slice(), b"l3", b"l4"])
    );
    assert_eq!(index.snippet(1, 3), "l2\nl3");
    assert_eq!(index.hex_hashes(1, 3).len(), 2);
}

#[test]
fn a_snippet_replaces_what_is_no_text() {
    let index = FileIndex::build(b"ok\n\xff\xfe\n\xc3\xa9\n");
    assert_eq!(index.snippet(0, 3), "ok\n\u{fffd}\u{fffd}\n\u{e9}");
}

#[test]
fn a_snippet_of_text_is_that_text() {
    assert_eq!(FileIndex::build(b"a").snippet(0, 1), "a");
    let text = "one \n\n  zwei \u{fc}\n\u{1f600}";
    let index = FileIndex::build(text.as_bytes());
    assert_eq!(index.snippet(0, 4), text);
    assert_eq!(index.snippet(2, 3), "  zwei \u{fc}");
    assert_eq!(index.snippet(1, 1), "");
}

#[test]
fn binary_sniff_only_reads_the_first_8kib() {
    let mut late_nul = vec![b'a'; BINARY_SNIFF_BYTES];
    late_nul.push(0);
    assert!(!is_binary(&late_nul));

    let mut early_nul = vec![b'a'; 16];
    early_nul.push(0);
    assert!(is_binary(&early_nul));
    assert!(!is_binary(b""));
}

// --- hunks ---------------------------------------------------------------------

fn hunk(before: std::ops::Range<u32>, after: std::ops::Range<u32>) -> HunkRanges {
    HunkRanges { before, after }
}

#[test]
fn classify_hunks_boundary_cases() {
    // Anchor [3, 8) in old coordinates.
    let (a, b) = (3, 8);

    // Insertion exactly at the anchor's first line shifts it down.
    assert_eq!(classify_hunks(&[hunk(3..3, 3..5)], a, b), (2, false));
    // Insertion exactly after the last anchor line is below.
    assert_eq!(classify_hunks(&[hunk(8..8, 8..9)], a, b), (0, false));
    // Insertion strictly inside overlaps.
    assert!(classify_hunks(&[hunk(5..5, 5..6)], a, b).1);
    // Non-empty hunk ending exactly at the anchor start is above.
    assert_eq!(classify_hunks(&[hunk(1..3, 1..2)], a, b), (-1, false));
    // Non-empty hunk starting exactly at the anchor end is below.
    assert_eq!(classify_hunks(&[hunk(8..10, 8..14)], a, b), (0, false));
    // A hunk covering only the anchor's first line overlaps.
    assert!(classify_hunks(&[hunk(3..4, 3..4)], a, b).1);
    // Deltas accumulate across every above-hunk.
    assert_eq!(
        classify_hunks(
            &[hunk(0..0, 0..3), hunk(1..2, 4..4), hunk(9..9, 11..12)],
            a,
            b
        ),
        (2, false)
    );
}

fn diff(before: &str, after: &str) -> Vec<HunkRanges> {
    hunks_since(Some(before.as_bytes()), after.as_bytes()).unwrap()
}

#[test]
fn imara_diff_pure_insertion_hunk_is_zero_width_at_old_position() {
    let hunks = diff("a\nb\nc\n", "a\nb\nx\nc\n");

    assert_eq!(hunks.len(), 1);
    let hunk = &hunks[0];
    assert!(hunk.before.is_empty());
    assert_eq!(hunk.before, 2..2);
    assert_eq!(hunk.after, 2..3);
}

#[test]
fn imara_diff_pure_deletion_hunk_is_zero_width_at_new_position() {
    let hunks = diff("a\nb\nx\nc\n", "a\nb\nc\n");

    assert_eq!(hunks.len(), 1);
    let hunk = &hunks[0];
    assert!(hunk.after.is_empty());
    assert_eq!(hunk.before, 2..3);
    assert_eq!(hunk.after, 2..2);
}

#[test]
fn imara_diff_modification_hunk_has_equal_length_ranges() {
    let hunks = diff("a\nb\nc\n", "a\nz\nc\n");

    assert_eq!(hunks.len(), 1);
    let hunk = &hunks[0];
    assert_eq!(hunk.before, 1..2);
    assert_eq!(hunk.after, 1..2);
}

#[test]
fn ordinary_versions_can_be_compared() {
    assert!(can_compare(b"", b""));
    assert!(can_compare(b"a\nb\n", b"c"));
}

#[test]
fn equal_and_unreadable_versions_have_no_hunks() {
    assert!(diff("a\nb\n", "a\nb\n").is_empty());
    assert!(hunks_since(None, b"a\n").is_none());
    // A last line that loses its newline is a changed line.
    let hunks = diff("a\nb\n", "a\nb");
    assert_eq!((hunks[0].before.clone(), hunks[0].after.clone()), (1..2, 1..2));
}

#[test]
fn a_cloned_hunk_covers_the_same_lines() {
    let copy = hunk(2..5, 3..4).clone();
    assert_eq!((copy.before, copy.after), (2..5, 3..4));
}

// --- rematch -------------------------------------------------------------------

#[test]
fn best_alignment_tolerates_one_internal_gap() {
    let wanted: Vec<Option<u64>> = (0..5).map(Some).collect();
    let mut prefix = vec![0usize; wanted.len() + 1];
    let mut suffix = vec![0usize; wanted.len() + 1];

    let exact = [0u64, 1, 2, 3, 4];
    assert_eq!(
        best_alignment(&wanted, &exact, 0, 0, &mut prefix, &mut suffix),
        5
    );

    // One line inserted in the middle: all 5 anchor lines still align.
    let inserted = [0u64, 1, 99, 2, 3, 4];
    assert_eq!(
        best_alignment(&wanted, &inserted, 0, 1, &mut prefix, &mut suffix),
        5
    );
    assert_eq!(
        best_alignment(&wanted, &inserted, 0, 0, &mut prefix, &mut suffix),
        2
    );

    // One anchor line deleted: the remaining 4 align across the gap.
    let deleted = [0u64, 1, 3, 4];
    assert_eq!(
        best_alignment(&wanted, &deleted, 0, -1, &mut prefix, &mut suffix),
        4
    );

    // An unparseable stored hash can never match.
    let mut broken = wanted.clone();
    broken[2] = None;
    assert_eq!(
        best_alignment(&broken, &exact, 0, 0, &mut prefix, &mut suffix),
        4
    );
}

#[test]
fn rematch_prefers_the_tighter_window_on_a_score_tie() {
    // At s=0 both d=0 and d=+1 recover all 3 anchor lines; the tie must go to d=0.
    let index = FileIndex::build(b"a\nb\nc\nd\ne\nf\n");
    let anchor = Anchor {
        base_blob: "0".repeat(40),
        start: 1,
        end: 3,
        line_hashes: index.hex_hashes(0, 3),
        ctx_before: hex16(0xdead_beef_dead_beef),
        ctx_after: hex16(0xdead_beef_dead_beef),
        symbol: None,
    };
    let m = rematch(&anchor, &index, 0).expect("positional-only match is accepted");
    assert_eq!((m.start, m.len, m.score_bp), (0, 3, W_POS_BP));
}

#[test]
fn rematch_holds_short_anchors_to_the_strict_bar() {
    let index = FileIndex::build(b"a\nb\nc\nd\ne\nf\n");
    let two_line = Anchor {
        base_blob: "0".repeat(40),
        start: 1,
        end: 2,
        line_hashes: index.hex_hashes(0, 2),
        ctx_before: hex16(0xdead_beef_dead_beef),
        ctx_after: hex16(0xdead_beef_dead_beef),
        symbol: None,
    };
    assert!(rematch(&two_line, &index, 0).is_none());

    let mut with_ctx = two_line.clone();
    with_ctx.ctx_before = hex16(index.ctx_before_at[0]);
    with_ctx.ctx_after = hex16(index.ctx_after_at[2]);
    let m = rematch(&with_ctx, &index, 0).expect("full positional + context clears 0.80");
    assert_eq!(m.score_bp, W_POS_BP + 2 * W_CTX_BP);
}

#[test]
fn rematch_bails_out_over_the_op_budget() {
    let mut text = String::new();
    for i in 0..40 {
        text.push_str(&format!("line {i}\n"));
    }
    let index = FileIndex::build(text.as_bytes());
    let anchor = Anchor {
        base_blob: "0".repeat(40),
        start: 1,
        end: 3,
        line_hashes: vec![hex16(0); (SCAN_OP_BUDGET as usize / index.len()) + 1],
        ctx_before: hex16(0),
        ctx_after: hex16(0),
        symbol: None,
    };
    assert!(rematch(&anchor, &index, 0).is_none());
}

#[test]
fn of_two_equal_matches_the_one_closer_to_the_expected_place_wins() {
    let index = FileIndex::build(b"a\nb\nc\nx\nx\nx\nx\na\nb\nc\n");
    let anchor = Anchor {
        base_blob: "0".repeat(40),
        start: 1,
        end: 3,
        line_hashes: index.hex_hashes(0, 3),
        ctx_before: hex16(1),
        ctx_after: hex16(1),
        symbol: None,
    };
    assert_eq!(rematch(&anchor, &index, 1).unwrap().start, 0);
    assert_eq!(rematch(&anchor, &index, 8).unwrap().start, 7);
    // A window that starts one line early, at the expected place, finds all lines too.
    let early = rematch(&anchor, &index, 6).unwrap();
    assert_eq!((early.start, early.len), (6, 4));
}

// --- sync ----------------------------------------------------------------------

#[test]
fn hunks_that_push_an_anchor_out_of_the_file_lead_to_a_rematch() {
    let index = FileIndex::build(b"a\nb\nc\n");
    let mut lost = record("note");
    lost.anchor.start = 1;
    lost.anchor.end = 3;
    lost.anchor.line_hashes = index.hex_hashes(0, 3);
    // The hunks do not touch the anchor but claim a move beyond the end of the file.
    let outcome = sync_one(&mut lost, &index, "cafe", Some(&[hunk(0..0, 0..9)]));
    assert_eq!(
        outcome,
        SyncOutcome::Rematched {
            new_start: 1,
            new_end: 3,
            confidence_bp: 7000
        }
    );
    assert_eq!(lost.anchor.base_blob, "cafe");
}

#[test]
fn an_anchor_on_no_lines_is_lost_whatever_the_hunks_say() {
    let index = FileIndex::build(b"a\nb\nc\n");
    let backwards = [hunk(0..0, 9..2)];
    let lost = SyncOutcome::Orphaned {
        reason: OrphanReason::LowConfidence,
    };
    let mut at_zero = record("note");
    at_zero.anchor.start = 0;
    let mut reversed = record("note");
    (reversed.anchor.start, reversed.anchor.end) = (3, 2);
    let mut bare = record("note");
    bare.anchor.line_hashes = Vec::new();
    for mut broken in [at_zero, reversed, bare] {
        let anchor = broken.anchor.clone();
        assert_eq!(sync_one(&mut broken, &index, "cafe", Some(&backwards)), lost);
        assert_eq!(broken.status, Status::Orphaned);
        assert_eq!(broken.anchor, anchor);
    }
}

#[test]
fn a_report_says_whether_every_change_is_in_the_log() {
    let synced = |to_append: Vec<Record>| SyncedFile {
        rel_path: path("a.rs"),
        records: to_append.clone(),
        outcomes: Vec::new(),
        to_append,
    };
    assert!(record_write_back(synced(Vec::new()), false).written_back);
    assert!(record_write_back(synced(Vec::new()), true).written_back);
    assert!(!record_write_back(synced(vec![record("a")]), false).written_back);
    let healed = record("b");
    let report = record_write_back(synced(vec![healed.clone()]), true);
    assert!(report.written_back);
    assert_eq!(report.rel_path, path("a.rs"));
    assert_eq!(report.records, vec![healed]);
    assert_eq!(report.outcomes, Vec::new());
}

#[test]
fn anchors_and_reports_are_cloned_whole() {
    let new = anchor_at(b"one\ntwo\n", "cafe".to_string(), 1, 2);
    let copy = new.clone();
    assert_eq!(copy.anchor, new.anchor);
    assert_eq!(copy.snippet, "one\ntwo");

    let kept = record("kept");
    let report = SyncReport {
        files: vec![FileSyncReport {
            rel_path: path("a.rs"),
            records: vec![kept.clone()],
            outcomes: vec![(kept.id, SyncOutcome::Refreshed)],
            written_back: false,
        }],
    };
    let copy = report.clone();
    assert_eq!(copy.files.len(), 1);
    assert_eq!(copy.files[0].rel_path, path("a.rs"));
    assert_eq!(copy.files[0].records, vec![kept.clone()]);
    assert_eq!(
        copy.files[0].outcomes,
        vec![(kept.id, SyncOutcome::Refreshed)]
    );
    assert!(!copy.files[0].written_back);
}

#[test]
fn a_tree_report_holds_every_file_or_the_first_error() {
    let file = |rel: &str| FileSyncReport {
        rel_path: path(rel),
        records: Vec::new(),
        outcomes: Vec::new(),
        written_back: true,
    };
    let report = sync_tree(vec![Ok(file("a.rs")), Ok(file("b.rs"))]).unwrap();
    assert_eq!(report.files.len(), 2);
    assert_eq!(report.files[1].rel_path, path("b.rs"));
    let failed = sync_tree(vec![
        Ok(file("a.rs")),
        Err(SyncError::Odb("first".to_string())),
        Err(SyncError::Odb("second".to_string())),
    ]);
    assert!(matches!(failed, Err(SyncError::Odb(why)) if why == "first"));
}

#[test]
fn a_sync_refuses_paths_that_name_no_source_file() {
    let store = new_store();
    let syncer = Syncer::new(path("/repo"));
    let outside = sync_path(&syncer, &store, &path("../x.rs"), None, Vec::new(), &[]);
    match outside {
        Err(SyncError::Store(StoreError::OutsideRepo { path: p, root })) => {
            assert_eq!(p, path("/x.rs"));
            assert_eq!(root, path("/repo"));
        }
        other => panic!("expected OutsideRepo, got {other:?}"),
    }
    let reserved = sync_path(&syncer, &store, &path(".annot/x.rs"), None, Vec::new(), &[]);
    assert!(matches!(
        reserved,
        Err(SyncError::Store(StoreError::ReservedPath { .. }))
    ));
    assert!(matches!(
        files_to_sync(&store, Vec::new(), Some(&path(".annot"))),
        Err(SyncError::Store(StoreError::ReservedPath { .. }))
    ));
    let synced = sync_path(&syncer, &store, &path("a/../b.rs"), None, Vec::new(), &[]).unwrap();
    assert_eq!(synced.rel_path, path("b.rs"));
    assert!(synced.to_append.is_empty());
    assert!(record_write_back(synced, false).written_back);
}

#[test]
fn only_changed_outcomes_are_written_back() {
    assert!(!mutates_record(&SyncOutcome::Unchanged));
    assert!(!mutates_record(&SyncOutcome::SkippedNotLive));
    assert!(mutates_record(&SyncOutcome::Refreshed));
    assert!(mutates_record(&SyncOutcome::Shifted { delta: -1 }));
    assert!(mutates_record(&SyncOutcome::Orphaned {
        reason: OrphanReason::FileMissing
    }));
}

#[test]
fn blobs_are_looked_up_once_and_only_for_stale_live_records() {
    let mut records = vec![record("a"), record("b"), record("c"), record("d")];
    records[1].anchor.base_blob = "zz".to_string();
    records[2].anchor.base_blob = "c".repeat(40);
    records[3].anchor.base_blob = "d".repeat(40);
    records[3].orphan();
    records.push(record("e"));

    let lookups = blobs_to_read(&"c".repeat(40), &records);
    assert_eq!(lookups.len(), 2);
    assert_eq!(lookups[0].hex, "b".repeat(40));
    assert_eq!(lookups[0].id, Some(vec![0xbb; 20]));
    assert_eq!(lookups[1].hex, "zz");
    assert_eq!(lookups[1].id, None);
}

#[test]
fn blob_ids_are_those_of_git() {
    assert_eq!(
        blob_oid(b"").unwrap(),
        "e69de29bb2d1d6434b8b29ae775ad8c2e48c5391"
    );
    assert_eq!(
        blob_oid(b"hello\n").unwrap(),
        "ce013625030ba8dba906f756967f9e9ca394464a"
    );
}

#[test]
fn an_anchor_describes_its_lines_and_their_surroundings() {
    let content = b"one\ntwo  \nthree\nfour\n";
    let new = anchor_at(content, "cafe".to_string(), 2, 3);
    let hash = |parts: &[&[u8]]| hex16(hash64(parts));
    assert_eq!(
        new.anchor,
        Anchor {
            base_blob: "cafe".to_string(),
            start: 2,
            end: 3,
            line_hashes: vec![hash(&[b"two"]), hash(&[b"three"])],
            ctx_before: hash(&[b"one"]),
            ctx_after: hash(&[b"four"]),
            symbol: None,
        }
    );
    assert_eq!(new.snippet, "two  \nthree");
    let made = Syncer::new(path("/repo"))
        .make_anchor(&path("a.rs"), content, 2, 3)
        .unwrap();
    assert_eq!(made.anchor.base_blob, blob_oid(content).unwrap());
    assert_eq!(made.anchor.line_hashes, new.anchor.line_hashes);
}

#[test]
fn an_error_of_anchoring_names_path_and_range() {
    let syncer = Syncer::new(path("/repo"));
    match syncer.make_anchor(&path("a.rs"), b"one\ntwo\n", 2, 3) {
        Err(SyncError::InvalidRange {
            path: p,
            start,
            end,
            line_count,
        }) => {
            assert_eq!(p, path("a.rs"));
            assert_eq!((start, end, line_count), (2, 3, 2));
        }
        other => panic!("expected InvalidRange, got {other:?}"),
    }
    assert_eq!(syncer.workdir(), &path("/repo"));
}

// --- store: paths --------------------------------------------------------------

fn at_root(store: &Store, rel: &str) -> TreePath {
    store.repo_root().join(&path(rel))
}

fn in_annot(store: &Store, rel: &str) -> TreePath {
    store.annot_root().join(&path(rel))
}

#[test]
fn mirror_path_mapping() {
    let store = new_store();
    let cwd = path("/");
    assert_eq!(
        store
            .annot_path(&at_root(&store, "src/parser.rs"), &cwd)
            .unwrap(),
        in_annot(&store, "src/parser.rs.jsonl")
    );
    assert_eq!(
        store.annot_path(&at_root(&store, "Makefile"), &cwd).unwrap(),
        in_annot(&store, "Makefile.jsonl")
    );
    assert_eq!(
        store.annot_path(&at_root(&store, ".env"), &cwd).unwrap(),
        in_annot(&store, ".env.jsonl")
    );
    assert_eq!(
        store
            .annot_path(&at_root(&store, "a/b/c/deep.rs"), &cwd)
            .unwrap(),
        in_annot(&store, "a/b/c/deep.rs.jsonl")
    );
}

#[test]
fn source_rel_rejects_escape_and_reserved() {
    let store = new_store();
    let cwd = path("/elsewhere/deep");

    let outside = path("/elsewhere.rs");
    let err = store.source_rel(&outside, &cwd).unwrap_err();
    assert!(matches!(err, StoreError::OutsideRepo { .. }));

    let escaped = at_root(&store, "../escaped.rs");
    let err = store.source_rel(&escaped, &cwd).unwrap_err();
    assert!(matches!(err, StoreError::OutsideRepo { .. }));

    let reserved = at_root(&store, ".annot/foo.rs");
    let err = store.source_rel(&reserved, &cwd).unwrap_err();
    assert!(matches!(err, StoreError::ReservedPath { .. }));

    let dotdot_relative_err = store.source_rel(&path("../x"), &cwd).unwrap_err();
    assert!(matches!(
        dotdot_relative_err,
        StoreError::OutsideRepo { .. }
    ));

    let nested = at_root(&store, "a/../b/./c.rs");
    assert_eq!(store.source_rel(&nested, &cwd).unwrap(), path("b/c.rs"));
}

#[test]
fn source_rel_resolves_relative_against_nested_cwd() {
    let store = new_store();
    let nested = at_root(&store, "src/nested");
    let result = store.source_rel(&path("thing.rs"), &nested);
    assert_eq!(result.unwrap(), path("src/nested/thing.rs"));
    let dotted = store.source_rel(&path("./thing.rs"), &nested);
    assert_eq!(dotted.unwrap(), path("src/nested/thing.rs"));
}

#[test]
fn a_refused_path_comes_back_normalized() {
    let store = new_store();
    match store.source_rel(&path("/repo/../x/./y"), &path("/")) {
        Err(StoreError::OutsideRepo { path: p, root }) => {
            assert_eq!(p, path("/x/y"));
            assert_eq!(root, path("/repo"));
        }
        other => panic!("expected OutsideRepo, got {other:?}"),
    }
    match store.annot_path(&path("/repo/.annot"), &path("/")) {
        Err(StoreError::ReservedPath { path: p }) => assert_eq!(p, path(".annot")),
        other => panic!("expected ReservedPath, got {other:?}"),
    }
    assert_eq!(store.source_rel(&path("/repo"), &path("/")).unwrap(), path(""));
}

#[test]
fn paths_normalize_without_looking_at_the_disk() {
    assert_eq!(normalize_lexically(&path("a/b/../c/.")), path("a/c"));
    assert_eq!(normalize_lexically(&path("../a/../../b")), path("../../b"));
    assert_eq!(normalize_lexically(&path("/../a")), path("/../a"));
    let once = normalize_lexically(&path("./x/../y"));
    assert_eq!(normalize_lexically(&once), once);
}

#[test]
fn mirrors_lead_back_to_their_sources() {
    let store = new_store();
    for rel in ["src/parser.rs", "Makefile", ".env", "a/b/c/deep.rs", "x.jsonl"] {
        let mirror = store.mirror_path_for_rel(&path(rel));
        assert_eq!(store.source_rel_from_mirror(&mirror), Some(path(rel)));
    }
    assert_eq!(store.source_rel_from_mirror(&path("/repo/src/a.rs")), None);
    assert_eq!(store.source_rel_from_mirror(store.annot_root()), None);
    assert_eq!(store.lock_path(), in_annot(&store, LOCK_FILE));
    assert_eq!(store.annot_root(), &at_root(&store, ANNOT_DIR));
}

#[test]
fn mirror_names_have_their_extension() {
    assert!(is_mirror_name(&b"a.rs.jsonl".to_vec()));
    assert!(is_mirror_name(&b".env.jsonl".to_vec()));
    assert!(!is_mirror_name(&b".jsonl".to_vec()));
    assert!(!is_mirror_name(&b"a.json".to_vec()));
    assert!(!is_mirror_name(&b"a.jsonl.tmp-12".to_vec()));
    assert!(!is_mirror_name(&b"jsonl".to_vec()));
    assert!(!is_mirror_name(&b"..".to_vec()));
}

#[test]
fn list_annotated_files_and_find_by_id() {
    let store = new_store();
    let a_rec = record("a");
    let b_rec = record("b");
    let logs = [
        (path("z/b.rs"), vec![b_rec.clone()]),
        (path("src/a.rs"), vec![a_rec.clone()]),
    ];
    let mirrors: Vec<TreePath> = logs
        .iter()
        .map(|(rel, _)| store.mirror_path_for_rel(rel))
        .collect();

    let files = store.list_annotated_files(&mirrors);
    assert_eq!(files, vec![path("src/a.rs"), path("z/b.rs")]);

    let find = |id: Ulid| -> Option<(TreePath, Record)> {
        let read = files
            .iter()
            .map(|rel| {
                let (_, raw) = logs.iter().find(|(r, _)| r == rel).unwrap();
                (rel.clone(), Ok(raw.clone()))
            })
            .collect();
        store.find(read, id).unwrap()
    };
    let (found_path, found_record) = find(a_rec.id).unwrap();
    assert_eq!(found_path, path("src/a.rs"));
    assert_eq!(found_record.id, a_rec.id);

    assert!(find(Ulid::generate()).is_none());
}

#[test]
fn a_search_ends_at_the_first_hit_or_error() {
    let store = new_store();
    let wanted = record("wanted");
    let mut dropped = wanted.clone();
    dropped.mark_tombstone();
    let hit = || (path("b.rs"), Ok(vec![wanted.clone()]));
    let miss = || (path("a.rs"), Ok(vec![wanted.clone(), dropped.clone()]));
    let broken = || {
        (
            path("c.rs"),
            Err(StoreError::MalformedLine {
                path: path("/repo/.annot/c.rs.jsonl"),
                line: 7,
            }),
        )
    };
    let (rel, found) = store
        .find(vec![miss(), hit(), broken()], wanted.id)
        .unwrap()
        .unwrap();
    assert_eq!(rel, path("b.rs"));
    assert_eq!(found, wanted);
    assert!(matches!(
        store.find(vec![miss(), broken(), hit()], wanted.id),
        Err(StoreError::MalformedLine { line: 7, .. })
    ));
    assert!(store.find(vec![miss()], wanted.id).unwrap().is_none());
}

#[test]
fn a_moved_annotation_is_found_once_in_its_new_file() {
    let store = new_store();
    let mut moved = record("note");
    moved.anchor.symbol = Some("fn main".to_string());
    moved.orphan();
    let new = anchor_at(b"one\ntwo\n", "cafe".to_string(), 2, 2);
    let appends = reanchor_annotation(&moved, &path("a.rs"), &path("b.rs"), new);
    let mut logs = vec![
        (path("a.rs"), vec![moved.clone()]),
        (path("b.rs"), vec![record("there already")]),
        (path("c.rs"), vec![record("elsewhere")]),
    ];
    for (rel, appended) in appends {
        let (_, log) = logs.iter_mut().find(|(r, _)| *r == rel).unwrap();
        log.push(appended);
    }
    for skipped in 0..3 {
        let read = logs
            .iter()
            .enumerate()
            .filter(|(i, _)| *i != skipped)
            .map(|(_, (rel, raw))| (rel.clone(), Ok(raw.clone())))
            .collect();
        match store.find(read, moved.id).unwrap() {
            Some((rel, found)) => {
                assert_ne!(skipped, 1);
                assert_eq!(rel, path("b.rs"));
                assert_eq!(found.status, Status::Live);
                assert_eq!((found.id, found.kind), (moved.id, moved.kind));
                assert_eq!(found.body, "note");
                assert_eq!(found.created_at, moved.created_at);
                assert_eq!(found.anchor.symbol, Some("fn main".to_string()));
                assert_eq!((found.anchor.start, found.anchor.end), (2, 2));
                assert_eq!(found.orig_snippet, Some("two".to_string()));
            }
            None => assert_eq!(skipped, 1),
        }
    }

    // What is listed behind the file does not matter.
    let read = vec![
        (path("b.rs"), Ok(logs[1].1.clone())),
        (path("z.rs"), Ok(vec![moved.clone()])),
        (path("zz.rs"), Err(StoreError::LockBusy)),
    ];
    let (rel, _) = store.find(read, moved.id).unwrap().unwrap();
    assert_eq!(rel, path("b.rs"));
}

#[test]
fn files_are_listed_component_by_component() {
    let store = new_store();
    let mirrors: Vec<TreePath> = ["b.rs", "a-b/x.rs", "a/z.rs", "a.rs", "B.rs"]
        .iter()
        .map(|rel| store.mirror_path_for_rel(&path(rel)))
        .collect();
    let files = store.list_annotated_files(&mirrors);
    assert_eq!(
        files,
        vec![
            path("B.rs"),
            path("a/z.rs"),
            path("a-b/x.rs"),
            path("a.rs"),
            path("b.rs"),
        ]
    );
}

// --- store: logs ---------------------------------------------------------------

// Logs of these tests hold one record per line, written as its id and its body.
fn written(record: &Record) -> String {
    format!("{} {}", record.id.to_string(), record.body)
}

fn read_back(line: &LogLine, known: &[&Record]) -> Option<Record> {
    known
        .iter()
        .find(|r| written(r) == line.content)
        .map(|r| (*r).clone())
}

fn read_log(store: &Store, bytes: &[u8], known: &[&Record]) -> Result<Vec<Record>, StoreError> {
    let lines = log_lines(bytes);
    let read = lines.iter().map(|l| read_back(l, known)).collect();
    store.read_raw(&path("/repo/.annot/src/lib.rs.jsonl"), &lines, read)
}

#[test]
fn append_creates_tree_and_trailing_newline() {
    let store = new_store();
    let text = store.append(written(&record("first")));
    let bytes = text.as_bytes();
    assert!(bytes.ends_with(b"\n"));
    assert_eq!(bytes.iter().filter(|&&b| b == b'\n').count(), 1);
}

#[test]
fn append_then_read_raw_order_preserved() {
    let store = new_store();
    let records: Vec<Record> = (0..5).map(|i| record(&format!("r{i}"))).collect();
    let known: Vec<&Record> = records.iter().collect();
    let text = store.append_all(&records.iter().map(written).collect());
    let raw = read_log(&store, text.as_bytes(), &known).unwrap();
    assert_eq!(raw.len(), 5);
    for (r, expected) in raw.iter().zip(records.iter()) {
        assert_eq!(r.id, expected.id);
    }
}

#[test]
fn missing_file_and_missing_annot_dir_read_empty() {
    let store = new_store();
    assert_eq!(read_log(&store, b"", &[]).unwrap(), Vec::new());
    assert_eq!(store.load(Vec::new()), Vec::new());
}

#[test]
fn load_last_wins_and_drops_tombstones() {
    let store = new_store();
    let mut log = Vec::new();

    let mut a = record("a-v1");
    let a_id = a.id;
    log.push(a.clone());
    a.body = "a-v2".to_string();
    a.touch();
    log.push(a.clone());

    let b = record("b-live");
    let b_id = b.id;
    log.push(b.clone());

    let mut c = record("c-to-tombstone");
    let c_id = c.id;
    log.push(c.clone());
    c.mark_tombstone();
    log.push(c.clone());

    assert_eq!(log.len(), 5);

    let loaded = store.load(log);
    assert_eq!(loaded.len(), 2);
    let a_loaded = loaded.iter().find(|r| r.id == a_id).unwrap();
    assert_eq!(a_loaded.body, "a-v2");
    assert!(loaded.iter().any(|r| r.id == b_id));
    assert!(!loaded.iter().any(|r| r.id == c_id));

    let ids: Vec<Ulid> = loaded.iter().map(|r| r.id).collect();
    let mut ascending = ids.clone();
    ascending.sort();
    assert_eq!(
        ids, ascending,
        "load() must return records sorted by id ascending"
    );
}

#[test]
fn malformed_interior_line_errors_with_line_number() {
    let store = new_store();
    let (ok1, ok2) = (record("ok1"), record("ok2"));
    let text = format!("{}\nnot json\n{}\n", written(&ok1), written(&ok2));

    let err = read_log(&store, text.as_bytes(), &[&ok1, &ok2]).unwrap_err();
    match err {
        StoreError::MalformedLine { line, .. } => assert_eq!(line, 2),
        other => panic!("expected MalformedLine, got {other:?}"),
    }
}

#[test]
fn torn_trailing_line_skipped() {
    let store = new_store();
    let ok1 = record("ok1");
    let text = format!("{}\n{{\"id\":\"truncated", written(&ok1));
    let raw = read_log(&store, text.as_bytes(), &[&ok1]).unwrap();
    assert_eq!(raw.len(), 1);
}

#[test]
fn crlf_and_blank_lines_tolerated() {
    let store = new_store();
    let r = record("crlf");
    let content = format!("\r\n{}\r\n\r\n", written(&r));
    let raw = read_log(&store, content.as_bytes(), &[&r]).unwrap();
    assert_eq!(raw.len(), 1);
    assert_eq!(raw[0].id, r.id);
}

#[test]
fn records_appended_to_any_whole_log_are_read_behind_its_own() {
    let store = new_store();
    let (old, a, b) = (record("old"), record("a"), record("b"));
    let known = [&old, &a, &b];
    let added = store.append_all(&vec![written(&a), written(&b)]);
    let logs = [
        String::new(),
        "\n".to_string(),
        format!("{}\n", written(&old)),
        format!("\r\n{}  \r\n\r\n \n", written(&old)),
    ];
    for log in logs {
        let before = read_log(&store, log.as_bytes(), &known).unwrap();
        let longer = log + &added;
        let after = read_log(&store, longer.as_bytes(), &known).unwrap();
        let mut expected = before;
        expected.extend([a.clone(), b.clone()]);
        assert_eq!(after, expected);

        // A record cut short is lost, and nothing else.
        let torn = longer + &written(&old)[..20];
        assert_eq!(read_log(&store, torn.as_bytes(), &known).unwrap(), expected);
    }
}

#[test]
fn log_lines_are_numbered_with_the_blank_ones_counted() {
    let lines = log_lines(b"one \n\n  \ntwo\t\r\n\xff\nthree");
    let seen: Vec<(usize, &str, bool)> = lines
        .iter()
        .map(|l| (l.number, l.content.as_str(), l.torn))
        .collect();
    assert_eq!(
        seen,
        vec![
            (1, "one", false),
            (4, "two", false),
            (5, "\u{fffd}", false),
            (6, "three", true)
        ]
    );
    assert!(log_lines(b"").is_empty());
    assert!(log_lines(b"\n\n").is_empty());
}

#[test]
fn a_complete_last_line_without_a_line_feed_counts() {
    let store = new_store();
    let r = record("whole");
    let raw = read_log(&store, written(&r).as_bytes(), &[&r]).unwrap();
    assert_eq!(raw, vec![r]);
}

#[test]
fn folding_twice_changes_nothing() {
    let (mut a, b) = (record("a"), record("b"));
    let mut log = vec![b.clone(), a.clone()];
    a.orphan();
    log.push(a.clone());
    let once = fold_last_wins(log);
    assert_eq!(once.len(), 2);
    assert!(once.iter().any(|r| r.status == Status::Orphaned));
    assert_eq!(fold_last_wins(once.clone()), once);
}

// --- store: compaction ---------------------------------------------------------

#[test]
fn compact_merges_dups_drops_tombstones_sorted_idempotent() {
    let store = new_store();
    let mut log = Vec::new();

    let mut a = record("a-v1");
    log.push(a.clone());
    a.body = "a-v2".to_string();
    a.touch();
    log.push(a.clone());

    let b = record("b-live");
    log.push(b.clone());

    let mut c = record("c");
    log.push(c.clone());
    c.mark_tombstone();
    log.push(c.clone());

    let (stats, change) = store.compact_file(Some(log));
    assert_eq!(stats.files_compacted, 1);
    assert_eq!(stats.files_removed, 0);
    assert_eq!(stats.files_skipped, 0);
    assert_eq!(stats.records_before, 5);
    assert_eq!(stats.records_after, 2);
    assert_eq!(stats.duplicates_merged, 2);
    assert_eq!(stats.tombstones_dropped, 1);

    let kept = match change {
        MirrorChange::Rewrite(kept) => kept,
        other => panic!("expected a rewrite, got {other:?}"),
    };
    let loaded = store.load(kept.clone());
    assert_eq!(loaded.len(), 2);
    let mut sorted = loaded.clone();
    sorted.sort_by_key(|r| r.id);
    assert_eq!(loaded, sorted);

    let (second, _) = store.compact_file(Some(kept));
    assert_eq!(second.files_compacted, 1);
    assert_eq!(second.records_before, 2);
    assert_eq!(second.records_after, 2);
    assert_eq!(second.duplicates_merged, 0);
    assert_eq!(second.tombstones_dropped, 0);
}

#[test]
fn compact_deletes_empty_mirror() {
    let store = new_store();
    let mut r = record("gone");
    let mut log = vec![r.clone()];
    r.mark_tombstone();
    log.push(r);

    let (stats, change) = store.compact_file(Some(log));
    assert_eq!(stats.files_removed, 1);
    assert_eq!(stats.records_after, 0);
    assert!(matches!(change, MirrorChange::Remove));
    assert_eq!(store.load(Vec::new()), Vec::new());

    let (none, change) = store.compact_file(None);
    assert_eq!(none, CompactStats::default());
    assert!(matches!(change, MirrorChange::Missing));
}

#[test]
fn compact_refuses_malformed_interior() {
    let store = new_store();
    let (ok1, ok2) = (record("ok1"), record("ok2"));
    let text = format!("{}\nnot json\n{}\n", written(&ok1), written(&ok2));
    // Nothing is compacted, so nothing is rewritten.
    let err = read_log(&store, text.as_bytes(), &[&ok1, &ok2]).unwrap_err();
    assert!(matches!(err, StoreError::MalformedLine { .. }));
    let total = store.compact_all(vec![Err(err)]).unwrap();
    assert_eq!(total.files_skipped, 1);
    assert_eq!(total.files_compacted, 0);
}

#[test]
fn compact_all_skips_malformed_and_processes_rest() {
    let store = new_store();
    let ok = record("ok");
    let bad = format!("{}\nnot json\n", written(&ok));
    let bad_result = read_log(&store, bad.as_bytes(), &[&ok]).map(|raw| {
        let (stats, _) = store.compact_file(Some(raw));
        stats
    });

    let mut good = record("g-v1");
    let mut log = vec![good.clone()];
    good.body = "g-v2".to_string();
    good.touch();
    log.push(good);
    let (good_stats, change) = store.compact_file(Some(log));

    let stats = store.compact_all(vec![bad_result, Ok(good_stats)]).unwrap();
    assert_eq!(stats.files_skipped, 1);
    assert_eq!(stats.files_compacted, 1);
    assert_eq!(stats.duplicates_merged, 1);

    match change {
        MirrorChange::Rewrite(kept) => {
            let good_loaded = store.load(kept);
            assert_eq!(good_loaded.len(), 1);
            assert_eq!(good_loaded[0].body, "g-v2");
        }
        other => panic!("expected a rewrite, got {other:?}"),
    }
}

#[test]
fn compact_lock_contention_returns_lock_busy() {
    let opts = CompactOptions {
        lock_retries: 2,
        lock_backoff: Duration::from_millis(10),
    };
    let refused = lock_refused(&opts, 0).unwrap();
    assert_eq!(refused, 1);
    let err = lock_refused(&opts, refused).unwrap_err();
    assert!(matches!(err, StoreError::LockBusy));

    let store = new_store();
    let busy = store.compact_all_opts(&opts, 2, Vec::new());
    assert!(matches!(busy, Err(StoreError::LockBusy)));
    let granted = store.compact_all_opts(&opts, 1, vec![Ok(CompactStats::default())]);
    assert_eq!(granted.unwrap(), CompactStats::default());

    let never = CompactOptions {
        lock_retries: 0,
        lock_backoff: Duration::from_millis(10),
    };
    assert!(matches!(lock_refused(&never, 0), Err(StoreError::LockBusy)));
    assert!(store.compact_all_opts(&never, 0, Vec::new()).is_ok());
    let default = CompactOptions::default();
    assert_eq!(default.lock_retries, 40);
    assert_eq!(default.lock_backoff, Duration::from_millis(50));
}

#[test]
fn any_other_error_ends_compacting() {
    let store = new_store();
    let (stats, _) = store.compact_file(Some(vec![record("x")]));
    assert!(!ends_compaction(&Ok(stats)));
    assert!(!ends_compaction(&Err(StoreError::MalformedLine {
        path: path("/repo/.annot/x.rs.jsonl"),
        line: 1,
    })));
    assert!(ends_compaction(&Err(StoreError::LockBusy)));
    assert!(ends_compaction(&Err(StoreError::Io {
        path: path("/repo/.annot/x.rs.jsonl"),
        reason: "denied".to_string(),
    })));
    match store.compact_all(vec![Ok(stats), Err(StoreError::LockBusy), Ok(stats)]) {
        Err(StoreError::LockBusy) => {}
        other => panic!("expected LockBusy, got {other:?}"),
    }
}

#[test]
fn stats_add_up_field_by_field() {
    let mut total = CompactStats::default();
    let one = CompactStats {
        files_compacted: 1,
        files_removed: 2,
        files_skipped: 3,
        records_before: 4,
        records_after: 5,
        duplicates_merged: 6,
        tombstones_dropped: 7,
    };
    total.absorb(one);
    total.absorb(one);
    assert_eq!(total.files_removed, 4);
    assert_eq!(total.tombstones_dropped, 14);
    assert_eq!(total.records_after, 10);
}

#[test]
fn a_mirror_is_rewritten_through_a_file_beside_it() {
    let plan = plan_mirror_write(
        &path("/repo/.annot/src/a.rs.jsonl"),
        4711,
        &vec!["one".to_string(), "two".to_string()],
    )
    .unwrap();
    assert_eq!(plan.tmp, path("/repo/.annot/src/a.rs.jsonl.tmp-4711"));
    assert_eq!(plan.text, "one\ntwo\n");

    let odd = TreePath {
        components: vec![Component::Root, Component::Normal(vec![0xff])],
    };
    let plan = plan_mirror_write(&odd, 1, &Vec::new()).unwrap();
    assert_eq!(plan.tmp, path("/mirror.tmp-1"));
    assert!(plan_mirror_write(&path("/"), 1, &Vec::new()).is_none());
    assert!(plan_mirror_write(&path(""), 1, &Vec::new()).is_none());
}

#[test]
fn directories_are_pruned_from_the_inside_out() {
    let store = new_store();
    assert_eq!(
        store.parents_to_prune(&path("/repo/.annot/a/b/c.rs.jsonl")),
        vec![path("/repo/.annot/a/b"), path("/repo/.annot/a")]
    );
    assert!(store
        .parents_to_prune(&path("/repo/.annot/c.rs.jsonl"))
        .is_empty());
    assert!(store.parents_to_prune(&path("/repo/src/c.rs")).is_empty());
}

// --- context and commands -------------------------------------------------------

#[test]
fn bodies_and_attributes_are_escaped() {
    assert_eq!(
        escape_body("<annot a</annot><<annot"),
        "&lt;annot a&lt;/annot><&lt;annot"
    );
    assert_eq!(escape_body("<anno</anno"), "<anno</anno");
    assert_eq!(escape_attr("a\"b\"\"c"), "a&quot;b&quot;&quot;c");
    assert_eq!(replace("aaaa", "aa", "b"), "bb");
    // The two patterns can be escaped in either order.
    let body = "</annot<annot</</annot";
    let swapped = replace(&replace(body, "</annot", "&lt;/annot"), "<annot", "&lt;annot");
    assert_eq!(escape_body(body), swapped);
}

#[test]
fn text_is_cut_between_characters() {
    assert_eq!(truncate_at_char_boundary("h\u{e9}llo", 2), "h");
    assert_eq!(truncate_at_char_boundary("h\u{e9}llo", 3), "h\u{e9}");
    assert_eq!(truncate_at_char_boundary("\u{1f600}x", 3), "");
    assert_eq!(truncate_at_char_boundary("abc", 3), "abc");
    assert_eq!(truncate_at_char_boundary("abc", 0), "");
}

#[test]
fn a_block_is_cut_to_its_budget_or_left_out() {
    let mut r = record("0123456789");
    r.id = Ulid(0);
    let head = format!(
        "<annot untrusted=\"true\" id=\"{}\" file=\"f\" lines=\"1-1\" kind=\"decision\">\n",
        "0".repeat(26)
    );
    let overhead = head.len() + "\n</annot>".len() + 4;
    let budget = overhead.div_ceil(4);
    let room = budget * 4 - overhead;
    let cut = truncated_block(&r, "f", budget).unwrap();
    assert_eq!(
        cut,
        format!("{head}{}\u{2026}\n</annot>", &"0123456789"[..room])
    );
    assert!(truncated_block(&r, "f", budget - 1).is_none());
}

#[test]
fn get_needs_a_source_file_or_its_annotations() {
    assert!(get_allowed(true, true));
    assert!(get_allowed(true, false));
    assert!(get_allowed(false, true));
    assert!(!get_allowed(false, false));
    assert_eq!(
        missing_message(&path("src/missing.rs")),
        "no such file or annotations: src/missing.rs"
    );
}

#[test]
fn ranges_are_two_numbers() {
    assert_eq!(parse_range("3:5").unwrap(), (3, 5));
    assert_eq!(parse_range("+3:0005").unwrap(), (3, 5));
    assert!(matches!(parse_range("35"), Err(RangeError::Shape)));
    assert!(matches!(parse_range("a:5"), Err(RangeError::Start(s)) if s == "a"));
    assert!(matches!(parse_range("3:"), Err(RangeError::End(s)) if s.is_empty()));
    assert!(matches!(parse_range("3:5:7"), Err(RangeError::End(s)) if s == "5:7"));
    assert_eq!(parse_range("0:4294967295").unwrap(), (0, u32::MAX));
    assert!(matches!(parse_range("0:4294967296"), Err(RangeError::End(_))));
    assert!(matches!(parse_range("-1:2"), Err(RangeError::Start(_))));
}

#[test]
fn numbers_written_as_a_range_or_a_target_are_read_back() {
    for (start, end) in [(0, 0), (1, 10), (77, 4_294_967_295)] {
        assert_eq!(parse_range(&format!("{start}:{end}")).unwrap(), (start, end));
        assert_eq!(
            parse_reanchor_target(&format!("a:b.rs:{start}:{end}")).unwrap(),
            (Some("a:b.rs".to_string()), start, end)
        );
    }
}

#[test]
fn targets_may_name_a_file_with_colons() {
    assert_eq!(parse_reanchor_target("8:9").unwrap(), (None, 8, 9));
    assert_eq!(
        parse_reanchor_target("src/new.rs:8:9").unwrap(),
        (Some("src/new.rs".to_string()), 8, 9)
    );
    assert_eq!(
        parse_reanchor_target("c:/x:y.rs:8:9").unwrap(),
        (Some("c:/x:y.rs".to_string()), 8, 9)
    );
    assert_eq!(
        parse_reanchor_target(":8:9").unwrap(),
        (Some(String::new()), 8, 9)
    );
    assert!(matches!(parse_reanchor_target("89"), Err(RangeError::Shape)));
    assert!(matches!(
        parse_reanchor_target("f:x:9"),
        Err(RangeError::Start(_))
    ));
    assert!(matches!(
        parse_reanchor_target("f:9:x"),
        Err(RangeError::End(_))
    ));
}

#[test]
fn kinds_are_listed_with_commas() {
    assert_eq!(
        parse_kinds("decision, gotcha,,\u{3000}todo\t").unwrap(),
        vec![Kind::Decision, Kind::Gotcha, Kind::Todo]
    );
    assert!(matches!(parse_kinds(""), Err(KindsError::Empty)));
    assert!(matches!(parse_kinds(" , "), Err(KindsError::Empty)));
    match parse_kinds("todo,nope,bad") {
        Err(KindsError::Unknown(e)) => assert_eq!(e.0, "nope"),
        other => panic!("expected Unknown, got {other:?}"),
    }
}

#[test]
fn add_and_resolve_arguments_are_read_in_order() {
    assert!(matches!(
        parse_add("nonsense", "x"),
        Err(AddError::Kind(e)) if e.0 == "nonsense"
    ));
    assert!(matches!(
        parse_add("todo", "x"),
        Err(AddError::Range(RangeError::Shape))
    ));
    assert_eq!(parse_add("todo", "1:2").unwrap(), (Kind::Todo, 1, 2));

    assert!(matches!(
        parse_resolution(Some("bad"), true),
        Ok(Resolution::Drop)
    ));
    assert!(matches!(
        parse_resolution(None, false),
        Err(ResolveError::Nothing)
    ));
    assert!(matches!(
        parse_resolution(Some("bad"), false),
        Err(ResolveError::Target(RangeError::Shape))
    ));
    match parse_resolution(Some("f:1:2"), false) {
        Ok(Resolution::Reanchor { file, start, end }) => {
            assert_eq!((file.as_deref(), start, end), (Some("f"), 1, 2));
        }
        other => panic!("expected a target, got {other:?}"),
    }
}

#[test]
fn first_lines_lose_their_line_ending_only() {
    assert_eq!(first_line_of("one\r\ntwo"), "one");
    assert_eq!(first_line_of("one\r"), "one\r");
    assert_eq!(first_line_of(""), "");
    assert_eq!(first_line_of("\nx"), "");
}

#[test]
fn a_compaction_that_skipped_files_says_so_and_fails() {
    let mut stats = CompactStats::default();
    stats.files_compacted = 3;
    stats.records_after = 4;
    stats.duplicates_merged = 5;
    stats.tombstones_dropped = 6;
    assert_eq!(
        compact_summary(&stats),
        ("compacted 3 file(s): 4 kept, 11 dropped".to_string(), true)
    );
    stats.files_skipped = 2;
    assert_eq!(
        compact_summary(&stats),
        (
            "compacted 3 file(s): 4 kept, 11 dropped, 2 skipped (malformed)".to_string(),
            false
        )
    );
}

#[test]
fn paths_are_shown_with_slashes() {
    assert_eq!(path("/a/b").display(), "/a/b");
    assert_eq!(path("a/../b").display(), "a/../b");
    assert_eq!(path("/").display(), "/");
    assert_eq!(path("").display(), "");
    assert_eq!(path("./x").display(), "./x");
}
