//! What the commands decide: reading their arguments, and putting their output together.

use vstd::prelude::*;

use vstd::string::StringExecFns;

use crate::clock;
use crate::compact::CompactStats;
use crate::context;
use crate::context::render;
use crate::fold;
use crate::id;
use crate::id::Ulid;
use crate::lines;
use crate::model;
use crate::model::{AnchorView, Kind, ParseKindError, Record, RecordView, Status};
use crate::order;
use crate::order::Ranked;
use crate::path;
use crate::path::{Part, TreePath};
use crate::segments;
use crate::store;
use crate::store::StoreError;
use crate::strings;
use crate::strings::{first_line_of, split_ranges, trim_end, trim_start};
use crate::sync::{FileSyncReport, NewAnchor, SyncOutcome, SyncReport};
use crate::text;
use crate::text::{chars_of, parse_u32, push_decimal, same_text, string_of};

verus! {

broadcast use vstd::string::group_string_axioms;

/// Why a text is no line range. The offending part comes along.
#[derive(Debug)]
pub enum RangeError {
    /// It has too few parts.
    Shape,
    /// The first line is no number.
    Start(String),
    /// The last line is no number.
    End(String),
}

/// A range `START:END`: what stands before the first colon and what stands behind it.
pub open spec fn range_of(raw: Seq<char>) -> Option<(Seq<char>, Seq<char>)> {
    let pieces = segments::split(raw, ':');
    if pieces.len() < 2 {
        None
    } else {
        Some((pieces[0], raw.skip(pieces[0].len() as int + 1)))
    }
}

/// Reads a range `START:END`.
pub fn parse_range(raw: &str) -> (range: Result<(u32, u32), RangeError>)
    ensures
        match range_of(raw@) {
            None => range is Err && range->Err_0 is Shape,
            Some((a, b)) => match (text::u32_of(a), text::u32_of(b)) {
                (Some(start), Some(end)) => range == Ok::<(u32, u32), RangeError>((start, end)),
                (None, _) => range matches Err(RangeError::Start(s)) && s@ == a,
                (Some(_), None) => range matches Err(RangeError::End(s)) && s@ == b,
            },
        },
{
    let chars = chars_of(raw);
    let n: usize = chars.len();
    let mut colon: usize = 0;
    assert(raw@.take(0) =~= Seq::<char>::empty());
    while colon < n && chars[colon] != ':'
        invariant
            chars@ == raw@,
            n == chars@.len(),
            colon <= n,
            forall|i: int| 0 <= i < colon ==> raw@[i] != ':',
        decreases n - colon,
    {
        colon += 1;
    }
    let ghost a = raw@.take(colon as int);
    assert(!a.contains(':'));
    if colon == n {
        proof {
            assert(a =~= raw@);
            segments::lemma_split_single(raw@, ':');
        }
        return Err(RangeError::Shape);
    }
    let ghost b = raw@.skip(colon + 1);
    proof {
        lemma_split_front(raw@, ':', colon as int);
        assert(chars@.subrange(0, colon as int) =~= a);
        assert(chars@.subrange(colon + 1, n as int) =~= b);
    }
    let start: u32 = match parse_u32(chars.as_slice(), 0, colon) {
        Some(v) => v,
        None => {
            return Err(RangeError::Start(string_of(chars.as_slice(), 0, colon)));
        },
    };
    let end: u32 = match parse_u32(chars.as_slice(), colon + 1, n) {
        Some(v) => v,
        None => {
            return Err(RangeError::End(string_of(chars.as_slice(), colon + 1, n)));
        },
    };
    Ok((start, end))
}

/// The first piece of a text is what stands before the first separator.
proof fn lemma_split_front(s: Seq<char>, sep: char, at: int)
    requires
        0 <= at < s.len(),
        s[at] == sep,
        forall|i: int| 0 <= i < at ==> s[i] != sep,
    ensures
        segments::split(s, sep).len() >= 2,
        segments::split(s, sep)[0] == s.take(at),
    decreases s.len(),
{
    let init = s.drop_last();
    segments::lemma_split(init, sep);
    if at == s.len() - 1 {
        assert(!init.contains(sep));
        segments::lemma_split_single(init, sep);
        assert(init =~= s.take(at));
    } else {
        lemma_split_front(init, sep, at);
        assert(init.take(at) =~= s.take(at));
    }
}

/// Two numbers written as a range are read back.
pub proof fn lemma_range_roundtrip(start: u32, end: u32)
    ensures
        range_of(text::decimal(start as nat).push(':') + text::decimal(end as nat)) == Some(
            (text::decimal(start as nat), text::decimal(end as nat)),
        ),
        text::u32_of(text::decimal(start as nat)) == Some(start),
        text::u32_of(text::decimal(end as nat)) == Some(end),
{
    let a = text::decimal(start as nat);
    let b = text::decimal(end as nat);
    let raw = a.push(':') + b;
    text::lemma_decimal_roundtrip(start as nat);
    text::lemma_decimal_roundtrip(end as nat);
    assert forall|i: int| 0 <= i < a.len() implies raw[i] != ':' by {
        assert(text::is_digit(a[i]));
    }
    lemma_split_front(raw, ':', a.len() as int);
    assert(raw.take(a.len() as int) =~= a);
    assert(raw.skip(a.len() as int + 1) =~= b);
}

/// A target `[FILE:]START:END`: what stands before the last two colons, if anything does,
/// and the two last parts.
pub open spec fn target_of(raw: Seq<char>) -> Option<(Option<Seq<char>>, Seq<char>, Seq<char>)> {
    let pieces = segments::split(raw, ':');
    let n = pieces.len();
    if n < 2 {
        None
    } else {
        Some(
            (
                if n > 2 {
                    Some(segments::join(pieces.take(n - 2), seq![':']))
                } else {
                    None
                },
                pieces[n - 2],
                pieces[n - 1],
            ),
        )
    }
}

/// A target that names a file is made of that file and the two numbers, colons between
/// them, whatever colons the file's own name holds.
pub proof fn lemma_target_parts(raw: Seq<char>)
    ensures
        target_of(raw) matches Some((file, start, end)) ==> {
            &&& raw == (match file {
                Some(f) => f.push(':') + start.push(':') + end,
                None => start.push(':') + end,
            })
            &&& !start.contains(':')
            &&& !end.contains(':')
        },
{
    let pieces = segments::split(raw, ':');
    let n = pieces.len() as int;
    segments::lemma_split(raw, ':');
    if n >= 2 {
        let sep = seq![':'];
        let init = pieces.drop_last();
        let start = pieces[n - 2];
        let end = pieces[n - 1];
        assert(segments::join(pieces, sep) == segments::join(init, sep) + sep + end);
        if n == 2 {
            assert(segments::join(init, sep) == init[0]);
            assert(raw =~= start.push(':') + end);
        } else {
            let file = segments::join(pieces.take(n - 2), sep);
            assert(init.drop_last() =~= pieces.take(n - 2));
            assert(init.last() == start);
            assert(segments::join(init, sep) == file + sep + start);
            assert(raw =~= file.push(':') + start.push(':') + end);
        }
    }
}

/// A file and two numbers written as a target are read back, whatever colons the file's name
/// holds.
pub proof fn lemma_target_roundtrip(file: Seq<char>, start: u32, end: u32)
    ensures
        target_of(
            (file.push(':') + text::decimal(start as nat)).push(':') + text::decimal(end as nat),
        ) == Some((Some(file), text::decimal(start as nat), text::decimal(end as nat))),
        text::u32_of(text::decimal(start as nat)) == Some(start),
        text::u32_of(text::decimal(end as nat)) == Some(end),
{
    let a = text::decimal(start as nat);
    let b = text::decimal(end as nat);
    let named = file.push(':') + a;
    let raw = named.push(':') + b;
    text::lemma_decimal_roundtrip(start as nat);
    text::lemma_decimal_roundtrip(end as nat);
    assert forall|i: int| 0 <= i < a.len() implies a[i] != ':' by {
        assert(text::is_digit(a[i]));
    }
    assert forall|i: int| 0 <= i < b.len() implies b[i] != ':' by {
        assert(text::is_digit(b[i]));
    }
    segments::lemma_split(file, ':');
    segments::lemma_split_append(file, ':', a);
    segments::lemma_split_append(named, ':', b);
    let pieces = segments::split(file, ':');
    assert(pieces.push(a).push(b).take(pieces.len() as int) =~= pieces);
}

/// Reads a target `[FILE:]START:END`.
pub fn parse_reanchor_target(raw: &str) -> (target: Result<
    (Option<String>, u32, u32),
    RangeError,
>)
    ensures
        match target_of(raw@) {
            None => target is Err && target->Err_0 is Shape,
            Some((file, a, b)) => match (text::u32_of(a), text::u32_of(b)) {
                (Some(start), Some(end)) => target matches Ok(t) && model::opt_text(t.0) == file
                    && t.1 == start && t.2 == end,
                (None, _) => target matches Err(RangeError::Start(s)) && s@ == a,
                (Some(_), None) => target matches Err(RangeError::End(s)) && s@ == b,
            },
        },
{
    let chars = chars_of(raw);
    let ranges = split_ranges(chars.as_slice(), ':');
    let ghost pieces = segments::split(raw@, ':');
    let n: usize = ranges.len();
    assert(strings::parts_at(chars@, ranges@) == pieces);
    assert(n == pieces.len());
    if n < 2 {
        return Err(RangeError::Shape);
    }
    let (sa, sb) = ranges[n - 2];
    let (ea, eb) = ranges[n - 1];
    assert(pieces[n - 2] == chars@.subrange(sa as int, sb as int));
    assert(pieces[n - 1] == chars@.subrange(ea as int, eb as int));
    let start: u32 = match parse_u32(chars.as_slice(), sa, sb) {
        Some(v) => v,
        None => {
            return Err(RangeError::Start(string_of(chars.as_slice(), sa, sb)));
        },
    };
    let end: u32 = match parse_u32(chars.as_slice(), ea, eb) {
        Some(v) => v,
        None => {
            return Err(RangeError::End(string_of(chars.as_slice(), ea, eb)));
        },
    };
    if n == 2 {
        return Ok((None, start, end));
    }
    let stop: usize = n - 2;
    let mut file = String::new();
    let mut i: usize = 0;
    while i < stop
        invariant
            i <= stop,
            stop <= ranges@.len(),
            strings::ranges_in(ranges@, chars@.len() as int),
            strings::parts_at(chars@, ranges@) == pieces,
            file@ == segments::join(pieces.take(i as int), seq![':']),
        decreases stop - i,
    {
        let ghost before = file@;
        let ghost head = pieces.take(i + 1);
        let (from, to) = ranges[i];
        assert(strings::parts_at(chars@, ranges@)[i as int] == chars@.subrange(
            from as int,
            to as int,
        ));
        assert(head.drop_last() =~= pieces.take(i as int));
        assert(head.last() == chars@.subrange(from as int, to as int));
        if i > 0 {
            file.push(':');
        }
        file.append(string_of(chars.as_slice(), from, to).as_str());
        assert(file@ =~= segments::join(head, seq![':']));
        i += 1;
    }
    Ok((Some(file), start, end))
}

/// Why a list of kinds is refused.
#[derive(Debug)]
pub enum KindsError {
    /// A word is no kind.
    Unknown(ParseKindError),
    /// There is no word.
    Empty,
}

/// The words of a list: what stands between commas, without white space around it, blank
/// ones left out.
pub open spec fn kind_words(pieces: Seq<Seq<char>>) -> Seq<Seq<char>>
    decreases pieces.len(),
{
    if pieces.len() == 0 {
        seq![]
    } else {
        let rest = kind_words(pieces.drop_last());
        let word = strings::trimmed(pieces.last());
        if word.len() == 0 {
            rest
        } else {
            rest.push(word)
        }
    }
}

/// The kinds that the words stand for; the first word that stands for none is the error.
pub open spec fn kinds_named(words: Seq<Seq<char>>) -> Result<Seq<Kind>, Seq<char>>
    decreases words.len(),
{
    if words.len() == 0 {
        Ok(seq![])
    } else {
        match kinds_named(words.drop_last()) {
            Err(word) => Err(word),
            Ok(kinds) => match model::kind_of(words.last()) {
                Some(kind) => Ok(kinds.push(kind)),
                None => Err(words.last()),
            },
        }
    }
}

proof fn lemma_kinds_err(pieces: Seq<Seq<char>>, n: int)
    requires
        0 <= n <= pieces.len(),
        kinds_named(kind_words(pieces.take(n))) is Err,
    ensures
        kinds_named(kind_words(pieces)) == kinds_named(kind_words(pieces.take(n))),
    decreases pieces.len() - n,
{
    if n == pieces.len() {
        assert(pieces.take(n) =~= pieces);
    } else {
        let head = pieces.take(n + 1);
        assert(head.drop_last() =~= pieces.take(n));
        let words = kind_words(head);
        if words.len() > kind_words(pieces.take(n)).len() {
            assert(words.drop_last() =~= kind_words(pieces.take(n)));
        }
        lemma_kinds_err(pieces, n + 1);
    }
}

/// Reads a comma-separated list of kinds.
pub fn parse_kinds(raw: &str) -> (kinds: Result<Vec<Kind>, KindsError>)
    ensures
        match (kinds, kinds_named(kind_words(segments::split(raw@, ',')))) {
            (Ok(ks), Ok(named)) => ks@ == named && named.len() > 0,
            (Err(KindsError::Empty), Ok(named)) => named.len() == 0,
            (Err(KindsError::Unknown(e)), Err(word)) => e.0@ == word,
            _ => false,
        },
{
    let chars = chars_of(raw);
    let ranges = split_ranges(chars.as_slice(), ',');
    let ghost pieces = segments::split(raw@, ',');
    let mut kinds: Vec<Kind> = Vec::new();
    let mut i: usize = 0;
    assert(kinds_named(kind_words(pieces.take(0))) == Ok::<Seq<Kind>, Seq<char>>(kinds@));
    while i < ranges.len()
        invariant
            i <= ranges@.len(),
            pieces == segments::split(raw@, ','),
            strings::ranges_in(ranges@, chars@.len() as int),
            strings::parts_at(chars@, ranges@) == pieces,
            kinds_named(kind_words(pieces.take(i as int))) == Ok::<Seq<Kind>, Seq<char>>(kinds@),
        decreases ranges@.len() - i,
    {
        let (from, to) = ranges[i];
        let ghost head = pieces.take(i + 1);
        assert(strings::parts_at(chars@, ranges@)[i as int] == chars@.subrange(
            from as int,
            to as int,
        ));
        assert(head.drop_last() =~= pieces.take(i as int));
        assert(head.last() == chars@.subrange(from as int, to as int));
        let start: usize = trim_start(chars.as_slice(), from, to);
        let end: usize = trim_end(chars.as_slice(), start, to);
        let ghost word = chars@.subrange(start as int, end as int);
        assert(word == strings::trimmed(head.last()));
        if end > start {
            let own = string_of(chars.as_slice(), start, end);
            proof {
                let words = kind_words(head);
                assert(words == kind_words(pieces.take(i as int)).push(word));
                assert(words.drop_last() =~= kind_words(pieces.take(i as int)));
                assert(words.last() == word);
            }
            match Kind::from_str(own.as_str()) {
                Ok(kind) => {
                    kinds.push(kind);
                },
                Err(e) => {
                    proof {
                        lemma_kinds_err(pieces, i + 1);
                    }
                    return Err(KindsError::Unknown(e));
                },
            }
        }
        i += 1;
    }
    assert(pieces.take(i as int) =~= pieces);
    if kinds.len() == 0 {
        Err(KindsError::Empty)
    } else {
        Ok(kinds)
    }
}

/// Whether `get` has anything to read: a source file, or a log of one that is gone.
pub fn get_allowed(has_source: bool, has_log: bool) -> (ok: bool)
    ensures
        ok == (has_source || has_log),
{
    has_source || has_log
}

/// What is said of a path that names neither a file nor annotations of one.
pub open spec fn missing_text(rel: Seq<Part>) -> Seq<char> {
    "no such file or annotations: "@ + lines::text_of(path::path_bytes(rel))
}

/// What `get` and `sync` say of a path that names neither a file nor annotations of one.
pub fn missing_message(rel: &TreePath) -> (out: String)
    ensures
        out@ == missing_text(rel@),
{
    let mut out = String::new();
    out.append("no such file or annotations: ");
    out.append(rel.display().as_str());
    assert(out@ =~= missing_text(rel@));
    out
}

/// What `get` prints.
#[derive(Debug)]
pub enum GetOutput {
    /// This text.
    Context(String),
    /// The records as JSON, after a warning if a token budget was given in vain.
    Json { budget_ignored: bool },
}

/// Why `get` prints nothing.
#[derive(Debug)]
pub enum GetError {
    /// The list of kinds is refused.
    Kinds(KindsError),
    /// There is no such format.
    Format(String),
}

/// What `get` prints of the records of the file shown as `file_rel`.
pub fn get_output(
    format: &str,
    kinds: Option<&str>,
    max_tokens: Option<usize>,
    file_rel: &str,
    records: &Vec<Record>,
) -> (out: Result<GetOutput, GetError>)
    ensures
        ({
            let views = model::record_views(records@);
            if format@ == "context"@ {
                match kinds {
                    None => out matches Ok(GetOutput::Context(t)) && t@ == context::rendered(
                        file_rel@,
                        views,
                        None,
                        max_tokens,
                    ),
                    Some(list) => match kinds_named(
                        kind_words(segments::split(list@, ',')),
                    ) {
                        Ok(named) => if named.len() == 0 {
                            out matches Err(GetError::Kinds(KindsError::Empty))
                        } else {
                            out matches Ok(GetOutput::Context(t)) && t@ == context::rendered(
                                file_rel@,
                                views,
                                Some(named),
                                max_tokens,
                            )
                        },
                        Err(word) => out matches Err(GetError::Kinds(KindsError::Unknown(e)))
                            && e.0@ == word,
                    },
                }
            } else if format@ == "json"@ {
                out matches Ok(GetOutput::Json { budget_ignored }) && budget_ignored == (
                max_tokens is Some)
            } else {
                out matches Err(GetError::Format(f)) && f@ == format@
            }
        }),
{
    if same_text(format, "context") {
        match kinds {
            None => Ok(
                GetOutput::Context(render(file_rel, records.as_slice(), None, max_tokens)),
            ),
            Some(list) => match parse_kinds(list) {
                Ok(ks) => Ok(
                    GetOutput::Context(
                        render(file_rel, records.as_slice(), Some(ks.as_slice()), max_tokens),
                    ),
                ),
                Err(e) => Err(GetError::Kinds(e)),
            },
        }
    } else if same_text(format, "json") {
        proof {
            reveal_strlit("context");
            reveal_strlit("json");
            assert("context"@.len() == 7);
            assert("json"@.len() == 4);
        }
        Ok(GetOutput::Json { budget_ignored: max_tokens.is_some() })
    } else {
        Err(GetError::Format(format.to_owned()))
    }
}

/// What `sync` works on.
#[derive(Debug)]
pub enum SyncTarget {
    /// Every annotated file, or those under a directory.
    Tree(Option<TreePath>),
    /// One file.
    File(TreePath),
    /// Nothing: there is neither a file nor annotations of it.
    Missing(TreePath),
}

/// What `sync` works on when it is given the path `rel`: a directory as a whole, the root
/// with everything, or a file that exists or has annotations.
pub fn sync_target(rel: TreePath, is_dir: bool, is_present: bool, has_mirror: bool) -> (target: SyncTarget)
    ensures
        match target {
            SyncTarget::Tree(None) => is_dir && rel@.len() == 0,
            SyncTarget::Tree(Some(p)) => is_dir && rel@.len() > 0 && p@ == rel@,
            SyncTarget::File(p) => !is_dir && (is_present || has_mirror) && p@ == rel@,
            SyncTarget::Missing(p) => !is_dir && !is_present && !has_mirror && p@ == rel@,
        },
{
    if is_dir {
        if rel.is_empty() {
            SyncTarget::Tree(None)
        } else {
            SyncTarget::Tree(Some(rel))
        }
    } else if is_present || has_mirror {
        SyncTarget::File(rel)
    } else {
        SyncTarget::Missing(rel)
    }
}

/// The columns of a sync summary.
pub enum Column {
    Unchanged,
    Shifted,
    Reanchored,
    Orphaned,
}

/// The column that an outcome is counted in; records that are not live are not counted.
pub open spec fn column_of(outcome: SyncOutcome) -> Option<Column> {
    match outcome {
        SyncOutcome::Unchanged => Some(Column::Unchanged),
        SyncOutcome::Refreshed => Some(Column::Unchanged),
        SyncOutcome::Shifted { .. } => Some(Column::Shifted),
        SyncOutcome::Rematched { .. } => Some(Column::Reanchored),
        SyncOutcome::Orphaned { .. } => Some(Column::Orphaned),
        SyncOutcome::SkippedNotLive => None,
    }
}

/// How many outcomes of one file are counted in a column.
pub open spec fn in_column(outcomes: Seq<(Ulid, SyncOutcome)>, column: Column) -> nat
    decreases outcomes.len(),
{
    if outcomes.len() == 0 {
        0
    } else {
        in_column(outcomes.drop_last(), column) + if column_of(outcomes.last().1) == Some(column) {
            1nat
        } else {
            0nat
        }
    }
}

/// How many outcomes of all files are counted in a column.
pub open spec fn total_in(files: Seq<FileSyncReport>, column: Column) -> nat
    decreases files.len(),
{
    if files.len() == 0 {
        0
    } else {
        total_in(files.drop_last(), column) + in_column(files.last().outcomes@, column)
    }
}

fn counted(outcomes: &Vec<(Ulid, SyncOutcome)>) -> (counts: (u64, u64, u64, u64))
    ensures
        counts.0 == in_column(outcomes@, Column::Unchanged),
        counts.1 == in_column(outcomes@, Column::Shifted),
        counts.2 == in_column(outcomes@, Column::Reanchored),
        counts.3 == in_column(outcomes@, Column::Orphaned),
{
    let mut unchanged: u64 = 0;
    let mut shifted: u64 = 0;
    let mut reanchored: u64 = 0;
    let mut orphaned: u64 = 0;
    let n: usize = outcomes.len();
    let mut i: usize = 0;
    assert(outcomes@.take(0) =~= seq![]);
    while i < n
        invariant
            i <= n,
            n == outcomes@.len(),
            unchanged <= i,
            shifted <= i,
            reanchored <= i,
            orphaned <= i,
            unchanged == in_column(outcomes@.take(i as int), Column::Unchanged),
            shifted == in_column(outcomes@.take(i as int), Column::Shifted),
            reanchored == in_column(outcomes@.take(i as int), Column::Reanchored),
            orphaned == in_column(outcomes@.take(i as int), Column::Orphaned),
        decreases n - i,
    {
        let ghost head = outcomes@.take(i + 1);
        assert(head.drop_last() =~= outcomes@.take(i as int));
        assert(head.last() == outcomes@[i as int]);
        match outcomes[i].1 {
            SyncOutcome::Unchanged => {
                unchanged += 1;
            },
            SyncOutcome::Refreshed => {
                unchanged += 1;
            },
            SyncOutcome::Shifted { .. } => {
                shifted += 1;
            },
            SyncOutcome::Rematched { .. } => {
                reanchored += 1;
            },
            SyncOutcome::Orphaned { .. } => {
                orphaned += 1;
            },
            SyncOutcome::SkippedNotLive => {},
        }
        i += 1;
    }
    assert(outcomes@.take(n as int) =~= outcomes@);
    (unchanged, shifted, reanchored, orphaned)
}

/// The summary of a sync.
pub open spec fn sync_summary_of(files: Seq<FileSyncReport>) -> Seq<char> {
    "synced "@ + text::decimal(files.len()) + " file(s): "@ + text::decimal(
        total_in(files, Column::Unchanged),
    ) + " unchanged, "@ + text::decimal(total_in(files, Column::Shifted)) + " shifted, "@
        + text::decimal(total_in(files, Column::Reanchored)) + " reanchored, "@ + text::decimal(
        total_in(files, Column::Orphaned),
    ) + " orphaned"@
}

/// The summary of a sync.
pub fn sync_summary(report: &SyncReport) -> (out: String)
    ensures
        out@ == sync_summary_of(report.files@),
{
    let files = &report.files;
    let n: usize = files.len();
    let mut unchanged: u128 = 0;
    let mut shifted: u128 = 0;
    let mut reanchored: u128 = 0;
    let mut orphaned: u128 = 0;
    let mut i: usize = 0;
    assert(files@.take(0) =~= seq![]);
    while i < n
        invariant
            i <= n,
            files == &report.files,
            n == files@.len(),
            unchanged <= i * 0xffff_ffff_ffff_ffff,
            shifted <= i * 0xffff_ffff_ffff_ffff,
            reanchored <= i * 0xffff_ffff_ffff_ffff,
            orphaned <= i * 0xffff_ffff_ffff_ffff,
            unchanged == total_in(files@.take(i as int), Column::Unchanged),
            shifted == total_in(files@.take(i as int), Column::Shifted),
            reanchored == total_in(files@.take(i as int), Column::Reanchored),
            orphaned == total_in(files@.take(i as int), Column::Orphaned),
        decreases n - i,
    {
        let ghost head = files@.take(i + 1);
        assert(head.drop_last() =~= files@.take(i as int));
        assert(head.last() == files@[i as int]);
        let (u, s, r, o) = counted(&files[i].outcomes);
        unchanged = unchanged + u as u128;
        shifted = shifted + s as u128;
        reanchored = reanchored + r as u128;
        orphaned = orphaned + o as u128;
        i += 1;
    }
    assert(files@.take(n as int) =~= files@);
    let mut out = String::new();
    out.append("synced ");
    push_decimal(&mut out, n as u128);
    out.append(" file(s): ");
    push_decimal(&mut out, unchanged);
    out.append(" unchanged, ");
    push_decimal(&mut out, shifted);
    out.append(" shifted, ");
    push_decimal(&mut out, reanchored);
    out.append(" reanchored, ");
    push_decimal(&mut out, orphaned);
    out.append(" orphaned");
    assert(out@ =~= sync_summary_of(files@));
    out
}

/// The summary of a compaction.
pub open spec fn compact_summary_of(stats: CompactStats) -> Seq<char> {
    "compacted "@ + text::decimal(stats.files_compacted as nat) + " file(s): "@ + text::decimal(
        stats.records_after as nat,
    ) + " kept, "@ + text::decimal(
        (stats.duplicates_merged + stats.tombstones_dropped) as nat,
    ) + " dropped"@ + if stats.files_skipped > 0 {
        ", "@ + text::decimal(stats.files_skipped as nat) + " skipped (malformed)"@
    } else {
        seq![]
    }
}

/// The summary of a compaction, and whether it succeeded as a whole: whether no file was
/// skipped.
pub fn compact_summary(stats: &CompactStats) -> (out: (String, bool))
    ensures
        out.0@ == compact_summary_of(*stats),
        out.1 == (stats.files_skipped == 0),
{
    let mut line = String::new();
    line.append("compacted ");
    push_decimal(&mut line, stats.files_compacted as u128);
    line.append(" file(s): ");
    push_decimal(&mut line, stats.records_after as u128);
    line.append(" kept, ");
    push_decimal(
        &mut line,
        stats.duplicates_merged as u128 + stats.tombstones_dropped as u128,
    );
    line.append(" dropped");
    if stats.files_skipped > 0 {
        line.append(", ");
        push_decimal(&mut line, stats.files_skipped as u128);
        line.append(" skipped (malformed)");
    }
    assert(line@ =~= compact_summary_of(*stats));
    (line, stats.files_skipped == 0)
}

/// An orphaned annotation and the file that it belonged to.
#[derive(Debug)]
pub struct OrphanRow {
    pub rel: TreePath,
    pub record: Record,
}

/// What a row says.
pub open spec fn row_view(row: OrphanRow) -> (Seq<Part>, RecordView) {
    (row.rel@, row.record@)
}

/// What each row says.
pub open spec fn row_views(rows: Seq<OrphanRow>) -> Seq<(Seq<Part>, RecordView)> {
    rows.map_values(|r: OrphanRow| row_view(r))
}

/// The order of rows: by path, then by id.
pub open spec fn row_less(a: (Seq<Part>, RecordView), b: (Seq<Part>, RecordView)) -> bool {
    path::path_less(a.0, b.0) || (a.0 == b.0 && a.1.id.0 < b.1.id.0)
}

/// The order of rows sorts.
pub proof fn lemma_row_order()
    ensures
        order::strict_weak(
            |a: (Seq<Part>, RecordView), b: (Seq<Part>, RecordView)| row_less(a, b),
        ),
{
    let paths = |a: Seq<Part>, b: Seq<Part>| path::path_less(a, b);
    let rows = |a: (Seq<Part>, RecordView), b: (Seq<Part>, RecordView)| row_less(a, b);
    path::lemma_path_order();
    assert forall|a: (Seq<Part>, RecordView)| !(#[trigger] rows(a, a)) by {
        assert(!paths(a.0, a.0));
    }
    assert forall|
        a: (Seq<Part>, RecordView),
        b: (Seq<Part>, RecordView),
        c: (Seq<Part>, RecordView),
    | #[trigger]
        rows(a, b) && #[trigger] rows(b, c) implies rows(a, c) by {
        if paths(a.0, b.0) && paths(b.0, c.0) {
            assert(paths(a.0, c.0));
        }
    }
    assert forall|
        a: (Seq<Part>, RecordView),
        b: (Seq<Part>, RecordView),
        c: (Seq<Part>, RecordView),
    | #[trigger]
        rows(a, b) implies #[trigger] rows(a, c) || rows(c, b) by {
        assert(paths(a.0, c.0) || a.0 == c.0 || paths(c.0, a.0));
        if paths(c.0, a.0) && paths(a.0, b.0) {
            assert(paths(c.0, b.0));
        }
    }
}

impl Ranked for OrphanRow {
    open spec fn before(a: OrphanRow, b: OrphanRow) -> bool {
        row_less(row_view(a), row_view(b))
    }

    fn comes_before(&self, other: &OrphanRow) -> (yes: bool) {
        self.rel.comes_before(&other.rel) || (self.rel.same(&other.rel) && self.record.id.0
            < other.record.id.0)
    }
}

/// The orphaned records among those of the file `rel`, in their order.
pub open spec fn orphans_in(rel: Seq<Part>, records: Seq<RecordView>) -> Seq<
    (Seq<Part>, RecordView),
>
    decreases records.len(),
{
    if records.len() == 0 {
        seq![]
    } else {
        let rest = orphans_in(rel, records.drop_last());
        if records.last().status == Status::Orphaned {
            rest.push((rel, records.last()))
        } else {
            rest
        }
    }
}

/// The orphaned records of all files, in their order.
pub open spec fn orphans_of(files: Seq<(Seq<Part>, Seq<RecordView>)>) -> Seq<
    (Seq<Part>, RecordView),
>
    decreases files.len(),
{
    if files.len() == 0 {
        seq![]
    } else {
        orphans_of(files.drop_last()) + orphans_in(files.last().0, files.last().1)
    }
}

/// What each file holds.
pub open spec fn file_views(files: Seq<(TreePath, Vec<Record>)>) -> Seq<
    (Seq<Part>, Seq<RecordView>),
> {
    files.map_values(|f: (TreePath, Vec<Record>)| (f.0@, model::record_views(f.1@)))
}

/// The orphaned annotations of all files by path and id.
pub fn orphan_rows(files: &Vec<(TreePath, Vec<Record>)>) -> (rows: Vec<OrphanRow>)
    ensures
        row_views(rows@) == order::stable_sort(
            orphans_of(file_views(files@)),
            |a: (Seq<Part>, RecordView), b: (Seq<Part>, RecordView)| row_less(a, b),
        ),
{
    let ghost views = file_views(files@);
    let mut out: Vec<OrphanRow> = Vec::new();
    let mut i: usize = 0;
    assert(row_views(out@) =~= orphans_of(views.take(0)));
    while i < files.len()
        invariant
            i <= files@.len(),
            views == file_views(files@),
            row_views(out@) == orphans_of(views.take(i as int)),
        decreases files@.len() - i,
    {
        let ghost head = views.take(i + 1);
        let rel = &files[i].0;
        let records = &files[i].1;
        let ghost rviews = model::record_views(records@);
        let ghost prior = row_views(out@);
        assert(head.drop_last() =~= views.take(i as int));
        assert(head.last() == (rel@, rviews));
        let mut j: usize = 0;
        assert(rviews.take(0) =~= seq![]);
        assert(prior + orphans_in(rel@, rviews.take(0)) =~= prior);
        while j < records.len()
            invariant
                j <= records@.len(),
                rviews == model::record_views(records@),
                row_views(out@) == prior + orphans_in(rel@, rviews.take(j as int)),
            decreases records@.len() - j,
        {
            let ghost before = row_views(out@);
            assert(rviews.take(j + 1).drop_last() =~= rviews.take(j as int));
            assert(rviews.take(j + 1).last() == records@[j as int]@);
            if records[j].status == Status::Orphaned {
                let row = OrphanRow { rel: rel.clone(), record: records[j].clone() };
                out.push(row);
                assert(row_views(out@) =~= before.push((rel@, records@[j as int]@)));
            }
            assert(row_views(out@) =~= prior + orphans_in(rel@, rviews.take(j + 1)));
            j += 1;
        }
        assert(rviews.take(j as int) =~= rviews);
        i += 1;
    }
    assert(views.take(i as int) =~= views);
    let ghost unsorted = out@;
    let rows = order::sort(out);
    proof {
        order::lemma_sort_map(
            unsorted,
            order::by_rank::<OrphanRow>(),
            |r: OrphanRow| row_view(r),
            |a: (Seq<Part>, RecordView), b: (Seq<Part>, RecordView)| row_less(a, b),
        );
    }
    rows
}

/// The text that stands for an orphaned record: the first line of the snippet, or of the
/// body where there is none.
pub open spec fn orphan_gist(record: RecordView) -> Seq<char> {
    strings::first_line(
        match record.orig_snippet {
            Some(s) => s,
            None => record.body,
        },
    )
}

/// The line that is printed for an orphaned record of the file `rel`.
pub open spec fn orphan_line_of(rel: Seq<Part>, record: RecordView) -> Seq<char> {
    id::id_text(record.id) + "  "@ + lines::text_of(path::path_bytes(rel)) + ":"@
        + text::decimal(record.anchor.start as nat) + "-"@ + text::decimal(
        record.anchor.end as nat,
    ) + "  "@ + orphan_gist(record)
}

/// The line that is printed for an orphaned record.
pub fn orphan_line(row: &OrphanRow) -> (out: String)
    ensures
        out@ == orphan_line_of(row.rel@, row.record@),
{
    let record = &row.record;
    let gist = match &record.orig_snippet {
        Some(s) => first_line_of(s.as_str()),
        None => first_line_of(record.body.as_str()),
    };
    let mut out = record.id.to_string();
    out.append("  ");
    out.append(row.rel.display().as_str());
    out.append(":");
    push_decimal(&mut out, record.anchor.start as u128);
    out.append("-");
    push_decimal(&mut out, record.anchor.end as u128);
    out.append("  ");
    out.append(gist.as_str());
    assert(out@ =~= orphan_line_of(row.rel@, row.record@));
    out
}

/// Why `add` refuses its arguments.
#[derive(Debug)]
pub enum AddError {
    Kind(ParseKindError),
    Range(RangeError),
}

/// Reads the kind and the line range of a new annotation; the kind is read first.
pub fn parse_add(kind: &str, range: &str) -> (parsed: Result<(Kind, u32, u32), AddError>)
    ensures
        match model::kind_of(kind@) {
            None => parsed matches Err(AddError::Kind(e)) && e.0@ == kind@,
            Some(k) => match range_of(range@) {
                None => parsed matches Err(AddError::Range(RangeError::Shape)),
                Some((a, b)) => match (text::u32_of(a), text::u32_of(b)) {
                    (Some(start), Some(end)) => parsed == Ok::<(Kind, u32, u32), AddError>(
                        (k, start, end),
                    ),
                    (None, _) => parsed matches Err(AddError::Range(RangeError::Start(s))) && s@
                        == a,
                    (Some(_), None) => parsed matches Err(AddError::Range(RangeError::End(s)))
                        && s@ == b,
                },
            },
        },
{
    let k = match Kind::from_str(kind) {
        Ok(k) => k,
        Err(e) => {
            return Err(AddError::Kind(e));
        },
    };
    match parse_range(range) {
        Ok((start, end)) => Ok((k, start, end)),
        Err(e) => Err(AddError::Range(e)),
    }
}

/// A new annotation on a fresh anchor.
pub fn new_annotation(
    kind: Kind,
    body: String,
    new_anchor: NewAnchor,
    symbol: Option<String>,
) -> (record: Record)
    ensures
        record@ == (RecordView {
            id: record.id,
            kind,
            body: body@,
            anchor: (AnchorView {
                symbol: model::opt_text(symbol),
                ..new_anchor.anchor@
            }),
            status: Status::Live,
            orig_snippet: Some(new_anchor.snippet@),
            created_at: record.created_at@,
            updated_at: record.created_at@,
        }),
        clock::is_timestamp(record.created_at@),
{
    let mut record = Record::new(kind, body, new_anchor.anchor);
    record.orig_snippet = Some(new_anchor.snippet);
    record.anchor.symbol = symbol;
    record
}

/// What `resolve` is asked to do.
#[derive(Debug)]
pub enum Resolution {
    /// Drop the annotation.
    Drop,
    /// Put it on these lines of the file, or of its own one.
    Reanchor { file: Option<String>, start: u32, end: u32 },
}

/// Why `resolve` refuses its arguments.
#[derive(Debug)]
pub enum ResolveError {
    /// Neither a target nor the wish to drop was given.
    Nothing,
    /// The target is refused.
    Target(RangeError),
}

/// Reads what `resolve` is asked to do. Dropping goes first.
pub fn parse_resolution(reanchor: Option<&str>, drop: bool) -> (asked: Result<
    Resolution,
    ResolveError,
>)
    ensures
        if drop {
            asked matches Ok(Resolution::Drop)
        } else {
            match reanchor {
                None => asked matches Err(ResolveError::Nothing),
                Some(raw) => match target_of(raw@) {
                    None => asked matches Err(ResolveError::Target(RangeError::Shape)),
                    Some((f, a, b)) => match (text::u32_of(a), text::u32_of(b)) {
                        (Some(s), Some(e)) => asked matches Ok(
                            Resolution::Reanchor { file, start, end },
                        ) && model::opt_text(file) == f && start == s && end == e,
                        (None, _) => asked matches Err(
                            ResolveError::Target(RangeError::Start(s)),
                        ) && s@ == a,
                        (Some(_), None) => asked matches Err(
                            ResolveError::Target(RangeError::End(s)),
                        ) && s@ == b,
                    },
                },
            }
        },
{
    if drop {
        return Ok(Resolution::Drop);
    }
    match reanchor {
        None => Err(ResolveError::Nothing),
        Some(raw) => match parse_reanchor_target(raw) {
            Ok((file, start, end)) => Ok(Resolution::Reanchor { file, start, end }),
            Err(e) => Err(ResolveError::Target(e)),
        },
    }
}

/// `record` dropped at the time `now`.
pub open spec fn dropped(record: RecordView, now: Seq<char>) -> RecordView {
    RecordView { status: Status::Tombstone, updated_at: now, ..record }
}

/// `record` live on a new anchor since `now`; its symbol stays.
pub open spec fn reanchored(
    record: RecordView,
    anchor: AnchorView,
    snippet: Seq<char>,
    now: Seq<char>,
) -> RecordView {
    RecordView {
        status: Status::Live,
        anchor: (AnchorView { symbol: record.anchor.symbol, ..anchor }),
        orig_snippet: Some(snippet),
        updated_at: now,
        ..record
    }
}

/// What dropping `record` appends to its log.
pub fn drop_annotation(record: Record) -> (out: Record)
    ensures
        out@ == dropped(record@, out.updated_at@),
        clock::is_timestamp(out.updated_at@),
{
    let mut out = record;
    out.mark_tombstone();
    out
}

/// What putting `record` of the file `old_rel` on a new anchor in `target_rel` appends, and
/// to the logs of which files: the record to the log of the target first; then, if that is
/// another file, a tombstone to the log that it leaves.
pub fn reanchor_annotation(
    record: &Record,
    old_rel: &TreePath,
    target_rel: &TreePath,
    new_anchor: NewAnchor,
) -> (appends: Vec<(TreePath, Record)>)
    ensures
        appends@.len() == if target_rel@ == old_rel@ {
            1nat
        } else {
            2nat
        },
        appends@[0].0@ == target_rel@,
        appends@[0].1@ == reanchored(
            record@,
            new_anchor.anchor@,
            new_anchor.snippet@,
            appends@[0].1.updated_at@,
        ),
        clock::is_timestamp(appends@[0].1.updated_at@),
        target_rel@ != old_rel@ ==> {
            &&& appends@[1].0@ == old_rel@
            &&& appends@[1].1@ == dropped(record@, appends@[1].1.updated_at@)
            &&& clock::is_timestamp(appends@[1].1.updated_at@)
        },
{
    let mut moved = record.clone();
    let symbol = model::clone_opt_text(&moved.anchor.symbol);
    moved.status = Status::Live;
    moved.anchor = new_anchor.anchor;
    moved.anchor.symbol = symbol;
    moved.orig_snippet = Some(new_anchor.snippet);
    moved.touch();
    let mut appends: Vec<(TreePath, Record)> = Vec::new();
    appends.push((target_rel.clone(), moved));
    if !target_rel.same(old_rel) {
        appends.push((old_rel.clone(), drop_annotation(record.clone())));
    }
    appends
}

/// An annotation that moves to another file is found in that file's log from then on, and
/// no longer in the one that it left.
pub proof fn lemma_moved_annotation_lives_once(
    record: RecordView,
    old_log: Seq<RecordView>,
    new_log: Seq<RecordView>,
    anchor: AnchorView,
    snippet: Seq<char>,
    now: Seq<char>,
    later: Seq<char>,
)
    ensures
        ({
            let there = fold::living(
                fold::latest(new_log.push(reanchored(record, anchor, snippet, now))),
            );
            let here = fold::living(fold::latest(old_log.push(dropped(record, later))));
            &&& there.contains_key(record.id)
            &&& there[record.id] == reanchored(record, anchor, snippet, now)
            &&& !here.contains_key(record.id)
        }),
{
    assert(new_log.push(reanchored(record, anchor, snippet, now)).drop_last() =~= new_log);
    assert(old_log.push(dropped(record, later)).drop_last() =~= old_log);
}

/// A search through all logs finds an annotation that was put on a new anchor in the file
/// that it was put in, under its old id, live, and with its kind, body, symbol and time of
/// creation as they were; the log that it left no longer holds it. All that is asked is that
/// the search does not end at another log that is listed earlier.
pub proof fn lemma_moved_annotation_found(
    logs: Seq<(TreePath, Result<Vec<Record>, StoreError>)>,
    from: int,
    to: int,
    record: RecordView,
    old_log: Seq<RecordView>,
    new_log: Seq<RecordView>,
    anchor: AnchorView,
    snippet: Seq<char>,
    now: Seq<char>,
    later: Seq<char>,
)
    requires
        0 <= from < logs.len(),
        0 <= to < logs.len(),
        logs[to].1 matches Ok(raw) && model::record_views(raw@) == new_log.push(
            reanchored(record, anchor, snippet, now),
        ),
        from != to ==> (logs[from].1 matches Ok(raw) && model::record_views(raw@) == old_log.push(
            dropped(record, later),
        )),
        forall|i: int|
            0 <= i < to && i != from ==> !store::ends_search(#[trigger] logs[i].1, record.id),
    ensures
        forall|i: int| #[trigger] store::is_search_end(logs, record.id, i) <==> i == to,
        from != to ==> !store::ends_search(logs[from].1, record.id),
        logs[to].1 matches Ok(raw) && ({
            let found = store::survivors_of(raw@)[record.id];
            &&& found == reanchored(record, anchor, snippet, now)
            &&& found.id == record.id
            &&& found.status == Status::Live
            &&& found.kind == record.kind
            &&& found.body == record.body
            &&& found.created_at == record.created_at
            &&& found.anchor.symbol == record.anchor.symbol
        }),
{
    lemma_moved_annotation_lives_once(record, old_log, new_log, anchor, snippet, now, later);
    assert(store::is_search_end(logs, record.id, to));
}

proof fn lemma_orphans_in(rel: Seq<Part>, records: Seq<RecordView>)
    ensures
        orphans_in(rel, records) == records.filter(
            |r: RecordView| r.status == Status::Orphaned,
        ).map_values(|r: RecordView| (rel, r)),
    decreases records.len(),
{
    reveal(Seq::filter);
    let orphaned = |r: RecordView| r.status == Status::Orphaned;
    let row = |r: RecordView| (rel, r);
    if records.len() == 0 {
        assert(orphans_in(rel, records) =~= records.filter(orphaned).map_values(row));
    } else {
        lemma_orphans_in(rel, records.drop_last());
        assert(orphans_in(rel, records) =~= records.filter(orphaned).map_values(row));
    }
}

proof fn lemma_orphans_of(files: Seq<(Seq<Part>, Seq<RecordView>)>)
    ensures
        orphans_of(files) == files.map_values(
            |f: (Seq<Part>, Seq<RecordView>)|
                f.1.filter(|r: RecordView| r.status == Status::Orphaned).map_values(
                    |r: RecordView| (f.0, r),
                ),
        ).flatten(),
    decreases files.len(),
{
    let rows = |f: (Seq<Part>, Seq<RecordView>)|
        f.1.filter(|r: RecordView| r.status == Status::Orphaned).map_values(
            |r: RecordView| (f.0, r),
        );
    let parts = files.map_values(rows);
    parts.lemma_flatten_and_flatten_alt_are_equivalent();
    if files.len() > 0 {
        let fewer = files.drop_last();
        lemma_orphans_of(fewer);
        lemma_orphans_in(files.last().0, files.last().1);
        fewer.map_values(rows).lemma_flatten_and_flatten_alt_are_equivalent();
        assert(parts.drop_last() =~= fewer.map_values(rows));
        assert(parts.last() == rows(files.last()));
    }
}

/// The rows of `orphans` are the records of every file that are orphaned, each under the path
/// of its file, as often as they occur and nothing else, by path and then by id.
pub proof fn lemma_rows_are_the_orphans(files: Seq<(Seq<Part>, Seq<RecordView>)>)
    ensures
        ({
            let rows = order::stable_sort(
                orphans_of(files),
                |a: (Seq<Part>, RecordView), b: (Seq<Part>, RecordView)| row_less(a, b),
            );
            &&& rows.to_multiset() == files.map_values(
                |f: (Seq<Part>, Seq<RecordView>)|
                    f.1.filter(|r: RecordView| r.status == Status::Orphaned).map_values(
                        |r: RecordView| (f.0, r),
                    ),
            ).flatten().to_multiset()
            &&& forall|i: int, j: int|
                0 <= i < j < rows.len() ==> path::path_less(
                    (#[trigger] rows[i]).0,
                    (#[trigger] rows[j]).0,
                ) || (rows[i].0 == rows[j].0 && rows[i].1.id.0 <= rows[j].1.id.0)
        }),
{
    let less = |a: (Seq<Part>, RecordView), b: (Seq<Part>, RecordView)| row_less(a, b);
    let paths = |a: Seq<Part>, b: Seq<Part>| path::path_less(a, b);
    lemma_row_order();
    lemma_orphans_of(files);
    order::lemma_stable_sort(orphans_of(files), less);
    path::lemma_path_order();
    let rows = order::stable_sort(orphans_of(files), less);
    assert forall|i: int, j: int| 0 <= i < j < rows.len() implies path::path_less(
        (#[trigger] rows[i]).0,
        (#[trigger] rows[j]).0,
    ) || (rows[i].0 == rows[j].0 && rows[i].1.id.0 <= rows[j].1.id.0) by {
        assert(!less(rows[j], rows[i]));
        assert(paths(rows[i].0, rows[j].0) || rows[i].0 == rows[j].0 || paths(
            rows[j].0,
            rows[i].0,
        ));
    }
}

/// Every orphaned record of every file has its row, and every row is an orphaned record of the
/// file that it names.
pub proof fn lemma_every_orphan_has_a_row(
    files: Seq<(Seq<Part>, Seq<RecordView>)>,
    row: (Seq<Part>, RecordView),
)
    ensures
        order::stable_sort(
            orphans_of(files),
            |a: (Seq<Part>, RecordView), b: (Seq<Part>, RecordView)| row_less(a, b),
        ).contains(row) <==> exists|f: int, i: int|
            0 <= f < files.len() && 0 <= i < files[f].1.len() && files[f].0 == row.0 && (
            #[trigger] files[f].1[i]) == row.1 && row.1.status == Status::Orphaned,
{
    broadcast use vstd::seq_lib::group_to_multiset_ensures;

    let less = |a: (Seq<Part>, RecordView), b: (Seq<Part>, RecordView)| row_less(a, b);
    lemma_row_order();
    order::lemma_stable_sort(orphans_of(files), less);
    lemma_orphan_among(files, row);
    let all = orphans_of(files);
    assert(all.contains(row) <==> all.to_multiset().count(row) > 0);
    let rows = order::stable_sort(all, less);
    assert(rows.contains(row) <==> rows.to_multiset().count(row) > 0);
}

proof fn lemma_orphan_in(rel: Seq<Part>, records: Seq<RecordView>, row: (Seq<Part>, RecordView))
    ensures
        orphans_in(rel, records).contains(row) <==> rel == row.0 && row.1.status
            == Status::Orphaned && records.contains(row.1),
    decreases records.len(),
{
    if records.len() > 0 {
        let fewer = records.drop_last();
        let rest = orphans_in(rel, fewer);
        let all = orphans_in(rel, records);
        lemma_orphan_in(rel, fewer, row);
        assert(records =~= fewer.push(records.last()));
        if rest.contains(row) {
            let k = choose|k: int| 0 <= k < rest.len() && rest[k] == row;
            assert(all[k] == row);
        }
        if fewer.contains(row.1) {
            let k = choose|k: int| 0 <= k < fewer.len() && fewer[k] == row.1;
            assert(records[k] == row.1);
        }
        if records.last() == row.1 {
            assert(records[records.len() - 1] == row.1);
            if rel == row.0 && row.1.status == Status::Orphaned {
                assert(all[all.len() - 1] == row);
            }
        }
        if records.contains(row.1) && records.last() != row.1 {
            let k = choose|k: int| 0 <= k < records.len() && records[k] == row.1;
            assert(fewer[k] == row.1);
        }
        if all.contains(row) && !rest.contains(row) {
            let k = choose|k: int| 0 <= k < all.len() && all[k] == row;
            if k < rest.len() {
                assert(rest[k] == row);
            }
        }
    }
}

proof fn lemma_orphan_among(
    files: Seq<(Seq<Part>, Seq<RecordView>)>,
    row: (Seq<Part>, RecordView),
)
    ensures
        orphans_of(files).contains(row) <==> exists|f: int, i: int|
            0 <= f < files.len() && 0 <= i < files[f].1.len() && files[f].0 == row.0 && (
            #[trigger] files[f].1[i]) == row.1 && row.1.status == Status::Orphaned,
    decreases files.len(),
{
    if files.len() > 0 {
        let fewer = files.drop_last();
        let rest = orphans_of(fewer);
        let last = files.last();
        let more = orphans_in(last.0, last.1);
        let all = orphans_of(files);
        lemma_orphan_among(fewer, row);
        lemma_orphan_in(last.0, last.1, row);
        assert(all == rest + more);
        if rest.contains(row) {
            let k = choose|k: int| 0 <= k < rest.len() && rest[k] == row;
            assert(all[k] == row);
            let (f, i) = choose|f: int, i: int|
                0 <= f < fewer.len() && 0 <= i < fewer[f].1.len() && fewer[f].0 == row.0 && (
                #[trigger] fewer[f].1[i]) == row.1 && row.1.status == Status::Orphaned;
            assert(files[f].1[i] == row.1);
        }
        if more.contains(row) {
            let k = choose|k: int| 0 <= k < more.len() && more[k] == row;
            assert(all[rest.len() + k] == row);
            let i = choose|i: int| 0 <= i < last.1.len() && last.1[i] == row.1;
            assert(files[files.len() - 1].1[i] == row.1);
        }
        if all.contains(row) {
            let k = choose|k: int| 0 <= k < all.len() && all[k] == row;
            if k < rest.len() {
                assert(rest[k] == row);
            } else {
                assert(more[k - rest.len()] == row);
            }
        }
        if exists|f: int, i: int|
            0 <= f < files.len() && 0 <= i < files[f].1.len() && files[f].0 == row.0 && (
            #[trigger] files[f].1[i]) == row.1 && row.1.status == Status::Orphaned {
            let (f, i) = choose|f: int, i: int|
                0 <= f < files.len() && 0 <= i < files[f].1.len() && files[f].0 == row.0 && (
                #[trigger] files[f].1[i]) == row.1 && row.1.status == Status::Orphaned;
            if f < fewer.len() {
                assert(fewer[f].1[i] == row.1);
            } else {
                assert(last.1[i] == row.1);
                assert(last.1.contains(row.1));
            }
        }
    }
}

proof fn lemma_in_column(outcomes: Seq<(Ulid, SyncOutcome)>, column: Column)
    ensures
        in_column(outcomes, column) == outcomes.filter(
            |o: (Ulid, SyncOutcome)| column_of(o.1) == Some(column),
        ).len(),
    decreases outcomes.len(),
{
    reveal(Seq::filter);
    if outcomes.len() > 0 {
        lemma_in_column(outcomes.drop_last(), column);
    }
}

proof fn lemma_total_in(files: Seq<FileSyncReport>, column: Column)
    ensures
        total_in(files, column) == files.map_values(
            |f: FileSyncReport| f.outcomes@,
        ).flatten().filter(|o: (Ulid, SyncOutcome)| column_of(o.1) == Some(column)).len(),
    decreases files.len(),
{
    let seen = |f: FileSyncReport| f.outcomes@;
    let counts = |o: (Ulid, SyncOutcome)| column_of(o.1) == Some(column);
    let parts = files.map_values(seen);
    parts.lemma_flatten_and_flatten_alt_are_equivalent();
    if files.len() == 0 {
        reveal(Seq::filter);
    } else {
        let fewer = files.drop_last();
        lemma_total_in(fewer, column);
        lemma_in_column(files.last().outcomes@, column);
        fewer.map_values(seen).lemma_flatten_and_flatten_alt_are_equivalent();
        assert(parts.drop_last() =~= fewer.map_values(seen));
        assert(parts.last() == files.last().outcomes@);
        Seq::filter_distributes_over_add(
            fewer.map_values(seen).flatten(),
            files.last().outcomes@,
            counts,
        );
        assert(parts.flatten() == fewer.map_values(seen).flatten() + files.last().outcomes@);
    }
}

/// Two ways to tell which outcomes count give the same number if they agree on every outcome.
proof fn lemma_same_count(
    outcomes: Seq<(Ulid, SyncOutcome)>,
    p: spec_fn((Ulid, SyncOutcome)) -> bool,
    q: spec_fn((Ulid, SyncOutcome)) -> bool,
)
    requires
        forall|o: (Ulid, SyncOutcome)| #[trigger] p(o) == q(o),
    ensures
        outcomes.filter(p) == outcomes.filter(q),
    decreases outcomes.len(),
{
    reveal(Seq::filter);
    if outcomes.len() > 0 {
        lemma_same_count(outcomes.drop_last(), p, q);
        assert(p(outcomes.last()) == q(outcomes.last()));
    }
}

/// A sync summary counts every outcome of every file under its own name. What was found where
/// it was counts as unchanged, whether or not its file changed around it; a record that was
/// not live does not count.
pub proof fn lemma_summary_counts(files: Seq<FileSyncReport>)
    ensures
        ({
            let all = files.map_values(|f: FileSyncReport| f.outcomes@).flatten();
            let unchanged = all.filter(
                |o: (Ulid, SyncOutcome)| o.1 is Unchanged || o.1 is Refreshed,
            ).len();
            let shifted = all.filter(|o: (Ulid, SyncOutcome)| o.1 is Shifted).len();
            let reanchored = all.filter(|o: (Ulid, SyncOutcome)| o.1 is Rematched).len();
            let orphaned = all.filter(|o: (Ulid, SyncOutcome)| o.1 is Orphaned).len();
            sync_summary_of(files) == "synced "@ + text::decimal(files.len()) + " file(s): "@
                + text::decimal(unchanged) + " unchanged, "@ + text::decimal(shifted)
                + " shifted, "@ + text::decimal(reanchored) + " reanchored, "@ + text::decimal(
                orphaned,
            ) + " orphaned"@
        }),
{
    let all = files.map_values(|f: FileSyncReport| f.outcomes@).flatten();
    lemma_total_in(files, Column::Unchanged);
    lemma_total_in(files, Column::Shifted);
    lemma_total_in(files, Column::Reanchored);
    lemma_total_in(files, Column::Orphaned);
    lemma_same_count(
        all,
        |o: (Ulid, SyncOutcome)| column_of(o.1) == Some(Column::Unchanged),
        |o: (Ulid, SyncOutcome)| o.1 is Unchanged || o.1 is Refreshed,
    );
    lemma_same_count(
        all,
        |o: (Ulid, SyncOutcome)| column_of(o.1) == Some(Column::Shifted),
        |o: (Ulid, SyncOutcome)| o.1 is Shifted,
    );
    lemma_same_count(
        all,
        |o: (Ulid, SyncOutcome)| column_of(o.1) == Some(Column::Reanchored),
        |o: (Ulid, SyncOutcome)| o.1 is Rematched,
    );
    lemma_same_count(
        all,
        |o: (Ulid, SyncOutcome)| column_of(o.1) == Some(Column::Orphaned),
        |o: (Ulid, SyncOutcome)| o.1 is Orphaned,
    );
}

/// The words of a list of kinds are what stands between its commas, trimmed, without the blank
/// ones, in order.
proof fn lemma_kind_words(pieces: Seq<Seq<char>>)
    ensures
        kind_words(pieces) == pieces.map_values(|p: Seq<char>| strings::trimmed(p)).filter(
            |w: Seq<char>| w.len() > 0,
        ),
    decreases pieces.len(),
{
    reveal(Seq::filter);
    let trim = |p: Seq<char>| strings::trimmed(p);
    let filled = |w: Seq<char>| w.len() > 0;
    let all = pieces.map_values(trim);
    if pieces.len() > 0 {
        lemma_kind_words(pieces.drop_last());
        assert(all.drop_last() =~= pieces.drop_last().map_values(trim));
        assert(all.last() == strings::trimmed(pieces.last()));
    } else {
        assert(kind_words(pieces) =~= all.filter(filled));
    }
}

/// A list of kinds names one kind for every word of it, in order, or else the first word that
/// is no kind.
proof fn lemma_kinds_named(words: Seq<Seq<char>>)
    ensures
        match kinds_named(words) {
            Ok(kinds) => kinds.len() == words.len() && forall|i: int|
                0 <= i < words.len() ==> model::kind_of(#[trigger] words[i]) == Some(kinds[i]),
            Err(word) => exists|i: int|
                0 <= i < words.len() && (#[trigger] words[i]) == word && model::kind_of(word) is None
                    && forall|j: int| 0 <= j < i ==> model::kind_of(#[trigger] words[j]) is Some,
        },
    decreases words.len(),
{
    if words.len() > 0 {
        let fewer = words.drop_last();
        lemma_kinds_named(fewer);
        match kinds_named(fewer) {
            Ok(kinds) => {
                assert forall|i: int| 0 <= i < fewer.len() implies model::kind_of(
                    #[trigger] words[i],
                ) == Some(kinds[i]) by {
                    assert(fewer[i] == words[i]);
                }
                if model::kind_of(words.last()) is None {
                    assert(words[words.len() - 1] == words.last());
                }
            },
            Err(word) => {
                let i = choose|i: int|
                    0 <= i < fewer.len() && (#[trigger] fewer[i]) == word && model::kind_of(
                        word,
                    ) is None && forall|j: int|
                        0 <= j < i ==> model::kind_of(#[trigger] fewer[j]) is Some;
                assert(words[i] == word);
                assert forall|j: int| 0 <= j < i implies model::kind_of(
                    #[trigger] words[j],
                ) is Some by {
                    assert(fewer[j] == words[j]);
                }
            },
        }
    }
}

/// What `--kinds` chooses: the words between the commas, trimmed, blank ones left out, each of
/// which is the name of the kind in its place, or else the first one that names none is refused.
pub proof fn lemma_kinds_are_the_words(raw: Seq<char>)
    ensures
        ({
            let words = segments::split(raw, ',').map_values(
                |p: Seq<char>| strings::trimmed(p),
            ).filter(|w: Seq<char>| w.len() > 0);
            match kinds_named(kind_words(segments::split(raw, ','))) {
                Ok(kinds) => kinds.len() == words.len() && forall|i: int|
                    0 <= i < words.len() ==> (#[trigger] words[i]) == match kinds[i] {
                        Kind::Decision => "decision"@,
                        Kind::Gotcha => "gotcha"@,
                        Kind::Todo => "todo"@,
                        Kind::History => "history"@,
                    },
                Err(word) => {
                    &&& words.contains(word)
                    &&& word != "decision"@
                    &&& word != "gotcha"@
                    &&& word != "todo"@
                    &&& word != "history"@
                },
            }
        }),
{
    let pieces = segments::split(raw, ',');
    let words = kind_words(pieces);
    lemma_kind_words(pieces);
    lemma_kinds_named(words);
    match kinds_named(words) {
        Ok(kinds) => {
            assert forall|i: int| 0 <= i < words.len() implies (#[trigger] words[i])
                == model::kind_word(kinds[i]) by {
                model::lemma_kind_roundtrip(kinds[i], words[i]);
            }
        },
        Err(word) => {
            model::lemma_kind_roundtrip(Kind::Decision, word);
            model::lemma_kind_roundtrip(Kind::Gotcha, word);
            model::lemma_kind_roundtrip(Kind::Todo, word);
            model::lemma_kind_roundtrip(Kind::History, word);
        },
    }
}

/// A range is cut at its first colon, and what has none is no range.
pub proof fn lemma_range_is_cut(raw: Seq<char>)
    ensures
        match range_of(raw) {
            None => !raw.contains(':'),
            Some((a, b)) => raw == a + seq![':'] + b && !a.contains(':'),
        },
{
    let pieces = segments::split(raw, ':');
    segments::lemma_split(raw, ':');
    if pieces.len() < 2 {
        assert(pieces =~= seq![pieces[0]]);
        assert(segments::join(pieces, seq![':']) == pieces[0]);
    } else {
        let rest = pieces.skip(1);
        let a = pieces[0];
        segments::lemma_join_halves(seq![a], rest, a, seq![':']);
        assert(seq![a] + rest =~= pieces);
        assert(raw == a + seq![':'] + segments::join(rest, seq![':']));
        assert(raw.skip(a.len() as int + 1) =~= segments::join(rest, seq![':']));
    }
}

/// What has no colon is no target, and a target names a file if and only if it has more than
/// one colon.
pub proof fn lemma_target_needs_colons(raw: Seq<char>)
    ensures
        match target_of(raw) {
            None => !raw.contains(':'),
            Some((None, a, b)) => raw == a + seq![':'] + b && !a.contains(':') && !b.contains(':'),
            Some((Some(file), a, b)) => raw == file + seq![':'] + a + seq![':'] + b && !a.contains(
                ':',
            ) && !b.contains(':'),
        },
{
    let pieces = segments::split(raw, ':');
    segments::lemma_split(raw, ':');
    lemma_target_parts(raw);
    match target_of(raw) {
        None => {
            assert(pieces =~= seq![pieces[0]]);
            assert(segments::join(pieces, seq![':']) == pieces[0]);
        },
        Some((None, a, b)) => {
            assert(a.push(':') + b =~= a + seq![':'] + b);
        },
        Some((Some(file), a, b)) => {
            assert(file.push(':') + a.push(':') + b =~= file + seq![':'] + a + seq![':'] + b);
        },
    }
}

/// An annotation that was dropped is gone from its log, and nothing else is.
pub proof fn lemma_dropped_is_gone(
    log: Seq<RecordView>,
    record: RecordView,
    now: Seq<char>,
    other: Ulid,
)
    ensures
        ({
            let before = fold::living(fold::latest(log));
            let after = fold::living(fold::latest(log.push(dropped(record, now))));
            &&& !after.contains_key(record.id)
            &&& other != record.id ==> after.contains_key(other) == before.contains_key(other)
            &&& other != record.id && after.contains_key(other) ==> after[other] == before[other]
        }),
{
    assert(log.push(dropped(record, now)).drop_last() =~= log);
}

/// An annotation that is put on a new anchor is the same annotation, live, on that anchor and
/// with the text there, under its old symbol.
pub proof fn lemma_reanchored_is_the_same(
    record: RecordView,
    anchor: AnchorView,
    snippet: Seq<char>,
    now: Seq<char>,
)
    ensures
        ({
            let new = reanchored(record, anchor, snippet, now);
            &&& new.id == record.id
            &&& new.kind == record.kind
            &&& new.body == record.body
            &&& new.created_at == record.created_at
            &&& new.status == Status::Live
            &&& new.updated_at == now
            &&& new.orig_snippet == Some(snippet)
            &&& new.anchor.symbol == record.anchor.symbol
            &&& new.anchor.base_blob == anchor.base_blob
            &&& new.anchor.start == anchor.start
            &&& new.anchor.end == anchor.end
            &&& new.anchor.line_hashes == anchor.line_hashes
            &&& new.anchor.ctx_before == anchor.ctx_before
            &&& new.anchor.ctx_after == anchor.ctx_after
        }),
{
}

/// The line of an orphan tells its id, its file, the lines that it was on, and the first line of
/// the text that it was on, or of its body where that is not known.
pub proof fn lemma_orphan_line_tells(rel: Seq<Part>, record: RecordView)
    ensures
        orphan_line_of(rel, record) == id::id_text(record.id) + seq![' ', ' '] + lines::text_of(
            path::path_bytes(rel),
        ) + seq![':'] + text::decimal(record.anchor.start as nat) + seq!['-'] + text::decimal(
            record.anchor.end as nat,
        ) + seq![' ', ' '] + strings::first_line(
            if record.orig_snippet is Some {
                record.orig_snippet->0
            } else {
                record.body
            },
        ),
{
    reveal_strlit("  ");
    reveal_strlit(":");
    reveal_strlit("-");
    assert("  "@ =~= seq![' ', ' ']);
    assert(":"@ =~= seq![':']);
    assert("-"@ =~= seq!['-']);
}

/// The summary of a compaction tells the files, the records that are left, those that are gone,
/// merged or dropped, and how many files were skipped if any were.
pub proof fn lemma_compact_summary_tells(stats: CompactStats)
    ensures
        compact_summary_of(stats) == "compacted "@ + text::decimal(stats.files_compacted as nat)
            + " file(s): "@ + text::decimal(stats.records_after as nat) + " kept, "@
            + text::decimal((stats.tombstones_dropped + stats.duplicates_merged) as nat)
            + " dropped"@ + (if stats.files_skipped == 0 {
            Seq::empty()
        } else {
            ", "@ + text::decimal(stats.files_skipped as nat) + " skipped (malformed)"@
        }),
{
}

/// What is said of a missing path ends in the bytes of that path, where they are text.
pub proof fn lemma_missing_path_is_named(rel: Seq<Part>)
    requires
        vstd::utf8::valid_utf8(path::path_bytes(rel)),
    ensures
        vstd::utf8::encode_utf8(missing_text(rel)) == vstd::utf8::encode_utf8(
            "no such file or annotations: "@,
        ) + path::path_bytes(rel),
{
    crate::log::lemma_encode_concat(
        "no such file or annotations: "@,
        vstd::utf8::decode_utf8(path::path_bytes(rel)),
    );
    vstd::utf8::decode_utf8_encode_utf8(path::path_bytes(rel));
}

} // verus!
