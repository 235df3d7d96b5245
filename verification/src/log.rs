//! The log of one source file: its lines, and what they add up to.

use vstd::prelude::*;

use crate::lines;
use crate::lines::lossy;
use crate::model;
use crate::model::{Record, RecordView};
use crate::segments;
use crate::strings;
use crate::strings::{split_ranges, trim_end};
use crate::text::{chars_of, string_of};

verus! {

broadcast use vstd::string::group_string_axioms;

/// A line of a log that is not blank: its number, counted from one, its text without
/// white space at the end, and whether it is a last line that nothing ends.
#[derive(Debug)]
pub struct LogLine {
    pub number: usize,
    pub content: String,
    pub torn: bool,
}

/// Number, text and tornness of a line.
pub open spec fn line_view(line: LogLine) -> (int, Seq<char>, bool) {
    (line.number as int, line.content@, line.torn)
}

/// Number, text and tornness of each line.
pub open spec fn line_views(lines: Seq<LogLine>) -> Seq<(int, Seq<char>, bool)> {
    lines.map_values(|l: LogLine| line_view(l))
}

/// Whether the last line of a log is ended.
pub open spec fn is_ended(log: Seq<char>) -> bool {
    log.len() > 0 && log.last() == '\n'
}

/// All lines of a log.
pub open spec fn raw_lines(log: Seq<char>) -> Seq<Seq<char>> {
    let pieces = segments::split(log, '\n');
    if is_ended(log) {
        pieces.drop_last()
    } else {
        pieces
    }
}

/// The lines that are not blank among the first `n`.
pub open spec fn entries_among(log: Seq<char>, n: int) -> Seq<(int, Seq<char>, bool)>
    decreases n,
{
    if n <= 0 {
        seq![]
    } else {
        let rest = entries_among(log, n - 1);
        let content = strings::trimmed_end(raw_lines(log)[n - 1]);
        if content.len() == 0 {
            rest
        } else {
            rest.push((n, content, !is_ended(log) && n == raw_lines(log).len()))
        }
    }
}

/// The lines of a log that are not blank.
pub open spec fn log_entries(log: Seq<char>) -> Seq<(int, Seq<char>, bool)> {
    entries_among(log, raw_lines(log).len() as int)
}

/// The lines of a log that are not blank. Bytes that are no UTF-8 are replaced.
pub fn log_lines(bytes: &[u8]) -> (out: Vec<LogLine>)
    ensures
        line_views(out@) == log_entries(lines::text_of(bytes@)),
{
    let text = lossy(bytes);
    let chars = chars_of(text.as_str());
    let ghost log = text@;
    let mut ranges = split_ranges(chars.as_slice(), '\n');
    proof {
        segments::lemma_split(log, '\n');
    }
    let n: usize = chars.len();
    let ended = n > 0 && chars[n - 1] == '\n';
    if ended {
        let ghost all = ranges@;
        ranges.pop();
        assert(strings::parts_at(log, ranges@) =~= strings::parts_at(log, all).drop_last());
        assert(forall|i: int| 0 <= i < ranges@.len() ==> ranges@[i] == all[i]);
    }
    let mut out: Vec<LogLine> = Vec::new();
    let mut i: usize = 0;
    assert(line_views(out@) =~= entries_among(log, 0));
    while i < ranges.len()
        invariant
            i <= ranges@.len(),
            chars@ == log,
            ended == is_ended(log),
            strings::ranges_in(ranges@, log.len() as int),
            strings::parts_at(log, ranges@) == raw_lines(log),
            line_views(out@) == entries_among(log, i as int),
        decreases ranges@.len() - i,
    {
        let ghost before = line_views(out@);
        let (from, to) = ranges[i];
        assert(strings::parts_at(log, ranges@)[i as int] == log.subrange(from as int, to as int));
        let end: usize = trim_end(chars.as_slice(), from, to);
        if end > from {
            let content = string_of(chars.as_slice(), from, end);
            let torn = !ended && i == ranges.len() - 1;
            out.push(LogLine { number: i + 1, content, torn });
            assert(line_views(out@) =~= before.push((i + 1, content@, torn)));
        }
        i += 1;
    }
    out
}

/// What the lines of a log hold, given what each of them was read as: the records in
/// order. A torn line that is no record is left out; any other ends the reading with its
/// number.
pub open spec fn collected(
    lines: Seq<(int, Seq<char>, bool)>,
    read: Seq<Option<RecordView>>,
) -> Result<Seq<RecordView>, int>
    decreases lines.len(),
{
    if lines.len() == 0 || read.len() != lines.len() {
        Ok(seq![])
    } else {
        match collected(lines.drop_last(), read.drop_last()) {
            Err(number) => Err(number),
            Ok(records) => match read.last() {
                Some(record) => Ok(records.push(record)),
                None => if lines.last().2 {
                    Ok(records)
                } else {
                    Err(lines.last().0)
                },
            },
        }
    }
}

/// What each line was read as.
pub open spec fn read_views(read: Seq<Option<Record>>) -> Seq<Option<RecordView>> {
    read.map_values(
        |r: Option<Record>|
            match r {
                Some(record) => Some(record@),
                None => None,
            },
    )
}

proof fn lemma_collected_err(
    lines: Seq<(int, Seq<char>, bool)>,
    read: Seq<Option<RecordView>>,
    n: int,
)
    requires
        0 <= n <= lines.len(),
        lines.len() == read.len(),
        collected(lines.take(n), read.take(n)) is Err,
    ensures
        collected(lines, read) == collected(lines.take(n), read.take(n)),
    decreases lines.len() - n,
{
    if n == lines.len() {
        assert(lines.take(n) =~= lines);
        assert(read.take(n) =~= read);
    } else {
        assert(lines.take(n + 1).drop_last() =~= lines.take(n));
        assert(read.take(n + 1).drop_last() =~= read.take(n));
        lemma_collected_err(lines, read, n + 1);
    }
}

/// The records of a log, in order, given what each line was read as. `Err` is the number
/// of the first line that is neither a record nor torn.
pub fn collect_records(lines: &Vec<LogLine>, read: Vec<Option<Record>>) -> (out: Result<
    Vec<Record>,
    usize,
>)
    requires
        lines@.len() == read@.len(),
    ensures
        match out {
            Ok(records) => collected(line_views(lines@), read_views(read@)) == Ok::<
                Seq<RecordView>,
                int,
            >(model::record_views(records@)),
            Err(number) => collected(line_views(lines@), read_views(read@)) == Err::<
                Seq<RecordView>,
                int,
            >(number as int),
        },
{
    let ghost views = line_views(lines@);
    let ghost seen = read_views(read@);
    let mut records: Vec<Record> = Vec::new();
    let mut i: usize = 0;
    assert(model::record_views(records@) =~= seq![]);
    while i < lines.len()
        invariant
            i <= lines@.len(),
            lines@.len() == read@.len(),
            views == line_views(lines@),
            seen == read_views(read@),
            collected(views.take(i as int), seen.take(i as int)) == Ok::<Seq<RecordView>, int>(
                model::record_views(records@),
            ),
        decreases lines@.len() - i,
    {
        let ghost before = model::record_views(records@);
        proof {
            assert(views.take(i + 1).drop_last() =~= views.take(i as int));
            assert(seen.take(i + 1).drop_last() =~= seen.take(i as int));
            assert(views.take(i + 1).last() == line_view(lines@[i as int]));
        }
        match &read[i] {
            Some(record) => {
                records.push(record.clone());
                assert(model::record_views(records@) =~= before.push(record@));
            },
            None => {
                if !lines[i].torn {
                    proof {
                        lemma_collected_err(views, seen, i + 1);
                    }
                    return Err(lines[i].number);
                }
            },
        }
        i += 1;
    }
    assert(views.take(i as int) =~= views);
    assert(seen.take(i as int) =~= seen);
    Ok(records)
}

/// The text that adds the given lines to a log: each ended by a line feed.
pub fn log_text(lines: &Vec<String>) -> (out: String)
    ensures
        out@ == segments::terminate(model::texts(lines@), '\n'),
{
    let ghost texts = model::texts(lines@);
    let mut out = String::new();
    let mut i: usize = 0;
    assert(out@ =~= segments::terminate(texts.take(0), '\n'));
    while i < lines.len()
        invariant
            i <= lines@.len(),
            texts == model::texts(lines@),
            out@ == segments::terminate(texts.take(i as int), '\n'),
        decreases lines@.len() - i,
    {
        let ghost before = out@;
        assert(texts.take(i + 1).drop_last() =~= texts.take(i as int));
        assert(texts.take(i + 1).last() == lines@[i as int]@);
        vstd::string::StringExecFns::append(&mut out, lines[i].as_str());
        out.push('\n');
        assert(out@ =~= before + lines@[i as int]@.push('\n'));
        i += 1;
    }
    assert(texts.take(i as int) =~= texts);
    out
}

/// Whether a text can be a line of a log as it stands: one line, not blank, without white
/// space at the end.
pub open spec fn is_log_line(line: Seq<char>) -> bool {
    line.len() > 0 && !line.contains('\n') && strings::trimmed_end(line) == line
}

/// Whether what is added to a log starts on a line of its own.
pub open spec fn is_continuable(log: Seq<char>) -> bool {
    log.len() == 0 || is_ended(log)
}

/// How many lines a log has, the blank ones included; a log of no characters has none.
pub open spec fn line_count(log: Seq<char>) -> int {
    if log.len() == 0 {
        0
    } else {
        raw_lines(log).len() as int
    }
}

/// The lines as they are read back behind `count` others.
pub open spec fn numbered_from(count: int, lines: Seq<Seq<char>>) -> Seq<(int, Seq<char>, bool)> {
    Seq::new(lines.len(), |i: int| (count + i + 1, lines[i], false))
}

/// The lines of a log that can be continued are its pieces without the last one, which is
/// empty.
proof fn lemma_continuable(log: Seq<char>)
    requires
        is_continuable(log),
    ensures
        segments::split(log, '\n').len() >= 1,
        segments::split(log, '\n').last() == Seq::<char>::empty(),
        line_count(log) == segments::split(log, '\n').len() - 1,
        log.len() > 0 ==> raw_lines(log) == segments::split(log, '\n').drop_last(),
        log_entries(log) == entries_among(log, line_count(log)),
{
    segments::lemma_split(log, '\n');
    if log.len() == 0 {
        assert(raw_lines(log).len() == 1);
        assert(raw_lines(log)[0] == Seq::<char>::empty());
        assert(entries_among(log, 0).len() == 0);
        assert(entries_among(log, 1) == entries_among(log, 0));
    }
}

/// One more line keeps the entries before it.
proof fn lemma_entries_kept(log: Seq<char>, longer: Seq<char>, n: int)
    requires
        is_ended(log),
        is_ended(longer) || n < raw_lines(longer).len(),
        0 <= n <= raw_lines(log).len() <= raw_lines(longer).len(),
        forall|i: int|
            0 <= i < raw_lines(log).len() ==> (#[trigger] raw_lines(longer)[i]) == raw_lines(log)[i],
    ensures
        entries_among(longer, n) == entries_among(log, n),
    decreases n,
{
    if n > 0 {
        lemma_entries_kept(log, longer, n - 1);
        assert(raw_lines(longer)[n - 1] == raw_lines(log)[n - 1]);
    }
}

proof fn lemma_line_added(log: Seq<char>, line: Seq<char>)
    requires
        is_continuable(log),
        is_log_line(line),
    ensures
        is_ended(log + line.push('\n')),
        line_count(log + line.push('\n')) == line_count(log) + 1,
        log_entries(log + line.push('\n')) == log_entries(log).push(
            (line_count(log) + 1, line, false),
        ),
{
    let whole = log + line.push('\n');
    let open = log + line;
    let pieces = segments::split(log, '\n');
    let m = line_count(log);
    lemma_continuable(log);
    segments::lemma_split_tail(log, '\n', line);
    assert(Seq::<char>::empty() + line =~= line);
    assert(whole =~= open.push('\n'));
    assert(whole.drop_last() =~= open);
    assert(segments::split(open, '\n') == pieces.drop_last().push(line));
    assert(segments::split(whole, '\n') == segments::split(open, '\n').push(
        Seq::<char>::empty(),
    ));
    assert(raw_lines(whole) =~= pieces.drop_last().push(line));
    if log.len() > 0 {
        lemma_entries_kept(log, whole, m);
    } else {
        assert(entries_among(whole, 0) =~= entries_among(log, 0));
    }
    assert(raw_lines(whole)[m] == line);
}

/// Adding lines to a log that is empty or ends in a line feed, whatever else it holds, adds
/// them behind those that are read back; nothing else changes.
pub proof fn lemma_log_append(log: Seq<char>, added: Seq<Seq<char>>)
    requires
        is_continuable(log),
        forall|i: int| 0 <= i < added.len() ==> is_log_line(#[trigger] added[i]),
    ensures
        is_continuable(log + segments::terminate(added, '\n')),
        line_count(log + segments::terminate(added, '\n')) == line_count(log) + added.len(),
        log_entries(log + segments::terminate(added, '\n')) == log_entries(log) + numbered_from(
            line_count(log),
            added,
        ),
    decreases added.len(),
{
    let whole = log + segments::terminate(added, '\n');
    if added.len() == 0 {
        assert(whole =~= log);
        assert(log_entries(log) + numbered_from(line_count(log), added) =~= log_entries(log));
    } else {
        let init = added.drop_last();
        assert forall|i: int| 0 <= i < init.len() implies is_log_line(#[trigger] init[i]) by {
            assert(init[i] == added[i]);
        }
        lemma_log_append(log, init);
        let base = log + segments::terminate(init, '\n');
        assert(is_log_line(added[added.len() - 1]));
        lemma_line_added(base, added.last());
        assert(whole =~= base + added.last().push('\n'));
        assert(numbered_from(line_count(log), added) =~= numbered_from(
            line_count(log),
            init,
        ).push((line_count(log) + added.len(), added.last(), false)));
        assert(log_entries(whole) =~= log_entries(log) + numbered_from(line_count(log), added));
    }
}

/// Lines written to a log are read back, each as it was written and none of them torn.
pub proof fn lemma_log_roundtrip(lines: Seq<Seq<char>>)
    requires
        forall|i: int| 0 <= i < lines.len() ==> is_log_line(#[trigger] lines[i]),
    ensures
        log_entries(segments::terminate(lines, '\n')) == numbered_from(0, lines),
        vstd::utf8::decode_utf8(
            vstd::utf8::encode_utf8(segments::terminate(lines, '\n')),
        ) == segments::terminate(lines, '\n'),
{
    let log = segments::terminate(lines, '\n');
    let none = Seq::<char>::empty();
    vstd::utf8::encode_utf8_decode_utf8(log);
    lemma_continuable(none);
    lemma_log_append(none, lines);
    assert(none + log =~= log);
    assert(log_entries(none) + numbered_from(0, lines) =~= numbered_from(0, lines));
}

/// A line that was cut short while it was written is torn, and the lines before it are
/// read as if it were not there.
pub proof fn lemma_torn_tail(log: Seq<char>, tail: Seq<char>)
    requires
        is_continuable(log),
        !tail.contains('\n'),
        strings::trimmed_end(tail).len() > 0,
    ensures
        log_entries(log + tail) == log_entries(log).push(
            (line_count(log) + 1, strings::trimmed_end(tail), true),
        ),
{
    let whole = log + tail;
    let pieces = segments::split(log, '\n');
    let m = line_count(log);
    lemma_continuable(log);
    segments::lemma_split_tail(log, '\n', tail);
    assert(Seq::<char>::empty() + tail =~= tail);
    assert(tail.len() > 0);
    assert(whole.last() == tail.last());
    assert(!is_ended(whole)) by {
        if tail.last() == '\n' {
            assert(tail[tail.len() - 1] == '\n');
            assert(tail.contains('\n'));
        }
    }
    assert(raw_lines(whole) == pieces.drop_last().push(tail));
    if log.len() > 0 {
        lemma_entries_kept(log, whole, m);
    } else {
        assert(entries_among(whole, 0) =~= entries_among(log, 0));
    }
    assert(raw_lines(whole)[m] == tail);
}

/// Lines that were all read as records.
pub open spec fn all_read(records: Seq<RecordView>) -> Seq<Option<RecordView>> {
    records.map_values(|r: RecordView| Some(r))
}

/// What each line is read as by `parse`.
pub open spec fn read_by(
    lines: Seq<(int, Seq<char>, bool)>,
    parse: spec_fn(Seq<char>) -> Option<RecordView>,
) -> Seq<Option<RecordView>> {
    lines.map_values(|l: (int, Seq<char>, bool)| parse(l.1))
}

/// What a log holds, when its lines are read by `parse`.
pub open spec fn records_in(
    log: Seq<char>,
    parse: spec_fn(Seq<char>) -> Option<RecordView>,
) -> Result<Seq<RecordView>, int> {
    collected(log_entries(log), read_by(log_entries(log), parse))
}

proof fn lemma_collected_more(
    lines: Seq<(int, Seq<char>, bool)>,
    read: Seq<Option<RecordView>>,
    more: Seq<(int, Seq<char>, bool)>,
    records: Seq<RecordView>,
)
    requires
        lines.len() == read.len(),
        more.len() == records.len(),
        collected(lines, read) is Ok,
    ensures
        collected(lines + more, read + all_read(records)) == Ok::<Seq<RecordView>, int>(
            collected(lines, read)->Ok_0 + records,
        ),
    decreases more.len(),
{
    let before = collected(lines, read)->Ok_0;
    if more.len() == 0 {
        assert(lines + more =~= lines);
        assert(read + all_read(records) =~= read);
        assert(before + records =~= before);
    } else {
        lemma_collected_more(lines, read, more.drop_last(), records.drop_last());
        let all = lines + more;
        let seen = read + all_read(records);
        assert(all.drop_last() =~= lines + more.drop_last());
        assert(seen.drop_last() =~= read + all_read(records.drop_last()));
        assert(seen.last() == Some(records.last()));
        assert((before + records.drop_last()).push(records.last()) =~= before + records);
    }
}

/// Appending records to a log that is empty or ends in a line feed, whatever else it holds,
/// makes it hold what it held, followed by these records in order. All that is asked of the
/// lines is that each is read as the record that it was written for.
pub proof fn lemma_records_read_back(
    log: Seq<char>,
    added: Seq<Seq<char>>,
    records: Seq<RecordView>,
    parse: spec_fn(Seq<char>) -> Option<RecordView>,
)
    requires
        is_continuable(log),
        records_in(log, parse) is Ok,
        added.len() == records.len(),
        forall|i: int| 0 <= i < added.len() ==> is_log_line(#[trigger] added[i]),
        forall|i: int| 0 <= i < added.len() ==> parse(#[trigger] added[i]) == Some(records[i]),
    ensures
        records_in(log + segments::terminate(added, '\n'), parse) == Ok::<Seq<RecordView>, int>(
            records_in(log, parse)->Ok_0 + records,
        ),
{
    lemma_log_append(log, added);
    let old = log_entries(log);
    let more = numbered_from(line_count(log), added);
    let all = log_entries(log + segments::terminate(added, '\n'));
    assert forall|i: int| 0 <= i < added.len() implies parse((#[trigger] more[i]).1) == Some(
        records[i],
    ) by {
        assert(more[i].1 == added[i]);
    }
    assert(read_by(all, parse) =~= read_by(old, parse) + all_read(records));
    lemma_collected_more(old, read_by(old, parse), more, records);
}

/// Encoding texts one after the other encodes both.
pub proof fn lemma_encode_concat(a: Seq<char>, b: Seq<char>)
    ensures
        vstd::utf8::encode_utf8(a + b) == vstd::utf8::encode_utf8(a) + vstd::utf8::encode_utf8(b),
    decreases a.len(),
{
    if a.len() == 0 {
        assert(a + b =~= b);
        assert(vstd::utf8::encode_utf8(a) + vstd::utf8::encode_utf8(b)
            =~= vstd::utf8::encode_utf8(b));
    } else {
        let s = a + b;
        assert(s.drop_first() =~= a.drop_first() + b);
        lemma_encode_concat(a.drop_first(), b);
        assert(s[0] == a[0]);
        assert(vstd::utf8::encode_utf8(s) =~= vstd::utf8::encode_utf8(a)
            + vstd::utf8::encode_utf8(b));
    }
}

proof fn lemma_last_newline(bytes: Seq<u8>)
    requires
        vstd::utf8::valid_utf8(bytes),
        bytes.len() > 0,
        bytes.last() == lines::NEWLINE,
    ensures
        is_ended(vstd::utf8::decode_utf8(bytes)),
{
    let at = bytes.len() - 1;
    assert(!vstd::utf8::is_continuation_byte(bytes[at]));
    vstd::utf8::is_char_boundary_iff_not_is_continuation_byte(bytes, at);
    vstd::utf8::valid_utf8_split(bytes, at);
    vstd::utf8::decode_utf8_split(bytes, at);
    let end = bytes.subrange(at, bytes.len() as int);
    assert(end =~= seq![lines::NEWLINE]);
    assert(vstd::utf8::pop_first_scalar(end) =~= Seq::<u8>::empty());
    assert(10u8 & 0x7f == 10) by (bit_vector);
    assert(vstd::utf8::decode_first_scalar(end) == 10);
    assert(vstd::utf8::decode_utf8(Seq::<u8>::empty()).len() == 0);
    assert(vstd::utf8::decode_utf8(end) =~= seq!['\n']);
}

/// The same of the bytes of a log: those that are appended come behind the old ones, which
/// stay as they are, and what the file holds is what it held, followed by the new records.
pub proof fn lemma_append_then_read(
    bytes: Seq<u8>,
    added: Seq<Seq<char>>,
    records: Seq<RecordView>,
    parse: spec_fn(Seq<char>) -> Option<RecordView>,
)
    requires
        vstd::utf8::valid_utf8(bytes),
        bytes.len() == 0 || bytes.last() == lines::NEWLINE,
        records_in(lines::text_of(bytes), parse) is Ok,
        added.len() == records.len(),
        forall|i: int| 0 <= i < added.len() ==> is_log_line(#[trigger] added[i]),
        forall|i: int| 0 <= i < added.len() ==> parse(#[trigger] added[i]) == Some(records[i]),
    ensures
        ({
            let longer = bytes + vstd::utf8::encode_utf8(segments::terminate(added, '\n'));
            &&& vstd::utf8::valid_utf8(longer)
            &&& records_in(lines::text_of(longer), parse) == Ok::<Seq<RecordView>, int>(
                records_in(lines::text_of(bytes), parse)->Ok_0 + records,
            )
        }),
{
    let log = vstd::utf8::decode_utf8(bytes);
    let more = segments::terminate(added, '\n');
    if bytes.len() > 0 {
        lemma_last_newline(bytes);
    }
    vstd::utf8::decode_utf8_encode_utf8(bytes);
    lemma_encode_concat(log, more);
    vstd::utf8::encode_utf8_valid_utf8(log + more);
    vstd::utf8::encode_utf8_decode_utf8(log + more);
    lemma_records_read_back(log, added, records, parse);
}

/// A line that was cut short while it was written, so that it is read as no record, costs
/// only its own record: the log holds what it held before.
pub proof fn lemma_torn_record_lost_alone(
    log: Seq<char>,
    tail: Seq<char>,
    parse: spec_fn(Seq<char>) -> Option<RecordView>,
)
    requires
        is_continuable(log),
        !tail.contains('\n'),
        strings::trimmed_end(tail).len() > 0,
        parse(strings::trimmed_end(tail)) is None,
    ensures
        records_in(log + tail, parse) == records_in(log, parse),
{
    lemma_torn_tail(log, tail);
    let old = log_entries(log);
    let all = log_entries(log + tail);
    assert(all.drop_last() =~= old);
    assert(read_by(all, parse).drop_last() =~= read_by(old, parse));
}

proof fn lemma_entries_among(log: Seq<char>, n: int)
    requires
        0 <= n <= raw_lines(log).len(),
    ensures
        entries_among(log, n) == Seq::new(
            n as nat,
            |i: int|
                (
                    i + 1,
                    strings::trimmed_end(segments::split(log, '\n')[i]),
                    i == segments::split(log, '\n').len() - 1,
                ),
        ).filter(|e: (int, Seq<char>, bool)| e.1.len() > 0),
    decreases n,
{
    reveal(Seq::filter);
    let pieces = segments::split(log, '\n');
    let entry = |i: int| (i + 1, strings::trimmed_end(pieces[i]), i == pieces.len() - 1);
    let filled = |e: (int, Seq<char>, bool)| e.1.len() > 0;
    segments::lemma_split(log, '\n');
    let all = Seq::new(n as nat, entry);
    if n == 0 {
        assert(entries_among(log, n) =~= all.filter(filled));
    } else {
        lemma_entries_among(log, n - 1);
        assert(all.drop_last() =~= Seq::new((n - 1) as nat, entry));
        assert(raw_lines(log)[n - 1] == pieces[n - 1]);
        assert(all.last() == entry(n - 1));
        assert(entries_among(log, n) =~= all.filter(filled));
    }
}

/// What is read of a log are the pieces between its line feeds, each without white space at its
/// end and under its number from one on, without the blank ones. Only the piece that no line
/// feed follows is taken for torn.
pub proof fn lemma_log_lines_are(log: Seq<char>)
    ensures
        log_entries(log) == Seq::new(
            segments::split(log, '\n').len(),
            |i: int|
                (
                    i + 1,
                    strings::trimmed_end(segments::split(log, '\n')[i]),
                    i == segments::split(log, '\n').len() - 1,
                ),
        ).filter(|e: (int, Seq<char>, bool)| e.1.len() > 0),
{
    reveal(Seq::filter);
    let pieces = segments::split(log, '\n');
    let entry = |i: int| (i + 1, strings::trimmed_end(pieces[i]), i == pieces.len() - 1);
    let all = Seq::new(pieces.len(), entry);
    segments::lemma_split(log, '\n');
    lemma_entries_among(log, raw_lines(log).len() as int);
    if is_ended(log) {
        assert(all.drop_last() =~= Seq::new((pieces.len() - 1) as nat, entry));
        assert(pieces.last() =~= Seq::<char>::empty());
        assert(all.last() == entry(pieces.len() - 1));
        assert(strings::trimmed_end(pieces.last()).len() == 0);
    }
}

/// Reading a log gives the records of its lines in order, if every line that is no record is
/// torn; else it fails with the number of the first line that is neither a record nor torn.
pub proof fn lemma_reading_a_log(
    lines: Seq<(int, Seq<char>, bool)>,
    read: Seq<Option<RecordView>>,
)
    requires
        lines.len() == read.len(),
    ensures
        match collected(lines, read) {
            Ok(records) => {
                &&& records == read.filter(|r: Option<RecordView>| r is Some).map_values(
                    |r: Option<RecordView>| r->0,
                )
                &&& forall|i: int|
                    0 <= i < read.len() ==> ((#[trigger] read[i]) is None ==> lines[i].2)
            },
            Err(number) => exists|i: int|
                0 <= i < read.len() && (#[trigger] read[i]) is None && !lines[i].2 && number
                    == lines[i].0 && forall|j: int|
                    0 <= j < i ==> ((#[trigger] read[j]) is None ==> lines[j].2),
        },
    decreases lines.len(),
{
    reveal(Seq::filter);
    let there = |r: Option<RecordView>| r is Some;
    let get = |r: Option<RecordView>| r->0;
    if lines.len() == 0 {
        assert(collected(lines, read)->Ok_0 =~= read.filter(there).map_values(get));
    } else {
        let fewer = lines.drop_last();
        let rest = read.drop_last();
        lemma_reading_a_log(fewer, rest);
        match collected(fewer, rest) {
            Ok(records) => {
                assert forall|i: int| 0 <= i < rest.len() && (#[trigger] read[i]) is None implies
                    lines[i].2 by {
                    assert(rest[i] == read[i] && fewer[i] == lines[i]);
                }
                let last = read.len() - 1;
                assert(read[last] == read.last() && lines[last] == lines.last());
                if collected(lines, read) is Ok {
                    assert(collected(lines, read)->Ok_0 =~= read.filter(there).map_values(get));
                }
            },
            Err(number) => {
                let i = choose|i: int|
                    0 <= i < rest.len() && (#[trigger] rest[i]) is None && !fewer[i].2 && number
                        == fewer[i].0 && forall|j: int|
                        0 <= j < i ==> ((#[trigger] rest[j]) is None ==> fewer[j].2);
                assert(read[i] == rest[i] && lines[i] == fewer[i]);
                assert forall|j: int| 0 <= j < i && (#[trigger] read[j]) is None implies
                    lines[j].2 by {
                    assert(rest[j] == read[j] && fewer[j] == lines[j]);
                }
            },
        }
    }
}

} // verus!
