//! The context format: annotations as tagged blocks within a token budget.

use vstd::prelude::*;

use vstd::string::StringExecFns;

use crate::id;
use crate::model;
use crate::model::{Kind, Record, RecordView, Status};
use crate::order;
use crate::order::Ranked;
use crate::segments;
use crate::strings;
use crate::strings::replace;
use crate::text;
use crate::text::{chars_of, push_decimal, string_of};

verus! {

broadcast use vstd::string::group_string_axioms;

/// What a cut body ends in.
pub const ELLIPSIS: char = '\u{2026}';

/// Number of bytes of a text.
pub open spec fn byte_len(s: Seq<char>) -> int {
    vstd::utf8::encode_utf8(s).len() as int
}

/// The place of a kind when room is scarce.
pub open spec fn kind_rank(kind: Kind) -> int {
    match kind {
        Kind::Gotcha => 0,
        Kind::Decision => 1,
        Kind::Todo => 2,
        Kind::History => 3,
    }
}

/// Whether `a` is shown rather than `b`: by kind, then by position, then by id.
pub open spec fn priority_less(a: RecordView, b: RecordView) -> bool {
    ||| kind_rank(a.kind) < kind_rank(b.kind)
    ||| kind_rank(a.kind) == kind_rank(b.kind) && positional_less(a, b)
}

/// Whether `a` is shown above `b`: by position, then by id.
pub open spec fn positional_less(a: RecordView, b: RecordView) -> bool {
    a.anchor.start < b.anchor.start || (a.anchor.start == b.anchor.start && a.id.0 < b.id.0)
}

/// Both orders sort.
pub proof fn lemma_render_orders()
    ensures
        order::strict_weak(|a: RecordView, b: RecordView| priority_less(a, b)),
        order::strict_weak(|a: RecordView, b: RecordView| positional_less(a, b)),
{
}

/// A body with every `<annot` and `</annot` made harmless.
pub open spec fn escaped_body(body: Seq<char>) -> Seq<char> {
    strings::replaced(
        strings::replaced(body, "<annot"@, "&lt;annot"@),
        "</annot"@,
        "&lt;/annot"@,
    )
}

/// A text with every `"` made fit for a quoted attribute.
pub open spec fn escaped_attr(s: Seq<char>) -> Seq<char> {
    strings::replaced(s, "\""@, "&quot;"@)
}

/// The opening tag of a block, with the line feed behind it.
pub open spec fn block_head(record: RecordView, file: Seq<char>) -> Seq<char> {
    "<annot untrusted=\"true\" id=\""@ + id::id_text(record.id) + "\" file=\""@ + escaped_attr(
        file,
    ) + "\" lines=\""@ + text::decimal(record.anchor.start as nat) + "-"@ + text::decimal(
        record.anchor.end as nat,
    ) + "\" kind=\""@ + model::kind_word(record.kind) + "\">\n"@
}

/// The block of a record.
pub open spec fn block_of(record: RecordView, file: Seq<char>) -> Seq<char> {
    block_head(record, file) + escaped_body(record.body) + "\n</annot>"@
}

/// The records that are shown at all: live, and of a wanted kind.
pub open spec fn shown(record: RecordView, kinds: Option<Seq<Kind>>) -> bool {
    record.status == Status::Live && (kinds matches Some(ks) ==> ks.contains(record.kind))
}

/// The records that are shown at all, in their order.
pub open spec fn candidates(records: Seq<RecordView>, kinds: Option<Seq<Kind>>) -> Seq<RecordView>
    decreases records.len(),
{
    if records.len() == 0 {
        records
    } else {
        let rest = candidates(records.drop_last(), kinds);
        if shown(records.last(), kinds) {
            rest.push(records.last())
        } else {
            rest
        }
    }
}

/// The block of each record.
pub open spec fn blocks_of(records: Seq<RecordView>, file: Seq<char>) -> Seq<Seq<char>> {
    records.map_values(|r: RecordView| block_of(r, file))
}

/// The blocks of the records by position, a blank line between neighbours; nothing for no
/// records.
pub open spec fn positional(records: Seq<RecordView>, file: Seq<char>) -> Seq<char> {
    if records.len() == 0 {
        seq![]
    } else {
        segments::join(
            blocks_of(
                order::stable_sort(
                    records,
                    |a: RecordView, b: RecordView| positional_less(a, b),
                ),
                file,
            ),
            "\n\n"@,
        ) + "\n"@
    }
}

/// Bytes of the blocks of the records, with a blank line between neighbours.
pub open spec fn cost(records: Seq<RecordView>, file: Seq<char>) -> int
    decreases records.len(),
{
    if records.len() == 0 {
        0
    } else {
        cost(records.drop_last(), file) + byte_len(block_of(records.last(), file)) + if records.len()
            == 1 {
            0int
        } else {
            2int
        }
    }
}

/// How many of the first `n` records fit together into `budget` tokens of four bytes,
/// with the line feed at the end; the first one that does not fit ends the count.
pub open spec fn fitting(records: Seq<RecordView>, file: Seq<char>, budget: int, n: int) -> int
    decreases n,
{
    if n <= 0 {
        0
    } else {
        let before = fitting(records, file, budget, n - 1);
        if before == n - 1 && cost(records.take(n), file) + 1 <= 4 * budget {
            n
        } else {
            before
        }
    }
}

/// The longest front part of `s` of at most `max` bytes.
pub open spec fn front_within(s: Seq<char>, max: int) -> Seq<char>
    decreases s.len(),
{
    if s.len() == 0 || byte_len(s) <= max {
        s
    } else {
        front_within(s.drop_last(), max)
    }
}

/// The block of a record with its body cut to fit into `budget_bytes` bytes with a line
/// feed behind it; `None` if even an empty body would not fit.
pub open spec fn cut_block(record: RecordView, file: Seq<char>, budget_bytes: int) -> Option<
    Seq<char>,
> {
    let overhead = byte_len(block_head(record, file)) + byte_len("\n</annot>"@) + 4;
    if budget_bytes < overhead {
        None
    } else {
        Some(
            block_head(record, file) + front_within(
                escaped_body(record.body),
                budget_bytes - overhead,
            ) + seq![ELLIPSIS] + "\n</annot>"@,
        )
    }
}

/// What is shown of the records of a file.
pub open spec fn rendered(
    file: Seq<char>,
    records: Seq<RecordView>,
    kinds: Option<Seq<Kind>>,
    max_tokens: Option<usize>,
) -> Seq<char> {
    let all = candidates(records, kinds);
    if all.len() == 0 {
        seq![]
    } else {
        match max_tokens {
            None => positional(all, file),
            Some(budget) => {
                let ranked = order::stable_sort(
                    all,
                    |a: RecordView, b: RecordView| priority_less(a, b),
                );
                if byte_len(block_of(ranked[0], file)) + 1 > 4 * budget {
                    match cut_block(ranked[0], file, 4 * budget) {
                        Some(block) => block + "\n"@,
                        None => seq![],
                    }
                } else {
                    positional(
                        ranked.take(fitting(ranked, file, budget as int, ranked.len() as int)),
                        file,
                    )
                }
            },
        }
    }
}

/// Neutralizes delimiter-token sequences in an annotation body, so that a body can never
/// forge the boundary of a block.
pub fn escape_body(body: &str) -> (out: String)
    ensures
        out@ == escaped_body(body@),
{
    proof {
        reveal_strlit("<annot");
        reveal_strlit("</annot");
    }
    let first = replace(body, "<annot", "&lt;annot");
    replace(first.as_str(), "</annot", "&lt;/annot")
}

/// Escapes `"` for interpolation into a double-quoted attribute value.
pub fn escape_attr(s: &str) -> (out: String)
    ensures
        out@ == escaped_attr(s@),
{
    proof {
        reveal_strlit("\"");
    }
    replace(s, "\"", "&quot;")
}

fn head_text(record: &Record, file_rel: &str) -> (out: String)
    ensures
        out@ == block_head(record@, file_rel@),
{
    let mut out = String::new();
    out.append("<annot untrusted=\"true\" id=\"");
    out.append(record.id.to_string().as_str());
    out.append("\" file=\"");
    out.append(escape_attr(file_rel).as_str());
    out.append("\" lines=\"");
    push_decimal(&mut out, record.anchor.start as u128);
    out.append("-");
    push_decimal(&mut out, record.anchor.end as u128);
    out.append("\" kind=\"");
    out.append(record.kind.as_str());
    out.append("\">\n");
    assert(out@ =~= block_head(record@, file_rel@));
    out
}

/// The block of a record.
pub fn format_block(record: &Record, file_rel: &str) -> (out: String)
    ensures
        out@ == block_of(record@, file_rel@),
{
    let mut out = head_text(record, file_rel);
    out.append(escape_body(record.body.as_str()).as_str());
    out.append("\n</annot>");
    out
}

/// The first place of a record when room is scarce.
pub fn kind_priority(kind: Kind) -> (rank: u8)
    ensures
        rank == kind_rank(kind),
{
    match kind {
        Kind::Gotcha => 0,
        Kind::Decision => 1,
        Kind::Todo => 2,
        Kind::History => 3,
    }
}

/// A record to be sorted by priority.
pub struct ByPriority<'a> {
    pub record: &'a Record,
}

/// A record to be sorted by position.
pub struct ByPosition<'a> {
    pub record: &'a Record,
}

impl<'a> Ranked for ByPosition<'a> {
    open spec fn before(a: ByPosition<'a>, b: ByPosition<'a>) -> bool {
        positional_less(a.record@, b.record@)
    }

    fn comes_before(&self, other: &ByPosition<'a>) -> (yes: bool) {
        let a = self.record;
        let b = other.record;
        a.anchor.start < b.anchor.start || (a.anchor.start == b.anchor.start && a.id.0 < b.id.0)
    }
}

impl<'a> Ranked for ByPriority<'a> {
    open spec fn before(a: ByPriority<'a>, b: ByPriority<'a>) -> bool {
        priority_less(a.record@, b.record@)
    }

    fn comes_before(&self, other: &ByPriority<'a>) -> (yes: bool) {
        let a = self.record;
        let b = other.record;
        let p: u8 = kind_priority(a.kind);
        let q: u8 = kind_priority(b.kind);
        p < q || (p == q && (a.anchor.start < b.anchor.start || (a.anchor.start == b.anchor.start
            && a.id.0 < b.id.0)))
    }
}

/// What each record holds.
pub open spec fn refs(records: Seq<&Record>) -> Seq<RecordView> {
    records.map_values(|r: &Record| r@)
}

/// The blocks of the records by position, a blank line between neighbours.
pub fn join_positional(records: &Vec<&Record>, file_rel: &str) -> (out: String)
    ensures
        out@ == positional(refs(records@), file_rel@),
{
    let mut out = String::new();
    if records.len() == 0 {
        assert(out@ =~= positional(refs(records@), file_rel@));
        return out;
    }
    let mut unsorted: Vec<ByPosition<'_>> = Vec::new();
    let mut i: usize = 0;
    while i < records.len()
        invariant
            i <= records@.len(),
            unsorted@.len() == i,
            forall|j: int| 0 <= j < i ==> (#[trigger] unsorted@[j]).record == records@[j],
        decreases records@.len() - i,
    {
        unsorted.push(ByPosition { record: records[i] });
        i += 1;
    }
    let ghost items = unsorted@;
    let ghost seen = |p: ByPosition<'_>| p.record@;
    let ghost less = |a: RecordView, b: RecordView| positional_less(a, b);
    assert(items.map_values(seen) =~= refs(records@));
    let sorted = order::sort(unsorted);
    proof {
        order::lemma_sort_map(items, order::by_rank::<ByPosition<'_>>(), seen, less);
        lemma_sort_len(refs(records@), less);
    }
    let ghost views = order::stable_sort(refs(records@), less);
    assert(sorted@.map_values(seen) == views);
    let ghost blocks = blocks_of(views, file_rel@);
    let mut k: usize = 0;
    while k < sorted.len()
        invariant
            k <= sorted@.len(),
            sorted@.len() == views.len(),
            blocks == blocks_of(views, file_rel@),
            forall|j: int|
                #![trigger sorted@[j]]
                0 <= j < sorted@.len() ==> sorted@[j].record@ == views[j],
            out@ == segments::join(blocks.take(k as int), "\n\n"@),
        decreases sorted@.len() - k,
    {
        let ghost before = out@;
        let ghost head = blocks.take(k + 1);
        assert(head.drop_last() =~= blocks.take(k as int));
        assert(head.last() == block_of(views[k as int], file_rel@));
        if k > 0 {
            out.append("\n\n");
        }
        out.append(format_block(sorted[k].record, file_rel).as_str());
        assert(out@ =~= segments::join(head, "\n\n"@));
        k += 1;
    }
    assert(blocks.take(k as int) =~= blocks);
    out.append("\n");
    out
}

proof fn lemma_placed_len<T>(s: Seq<T>, x: T, less: spec_fn(T, T) -> bool)
    ensures
        order::placed(s, x, less).len() == s.len() + 1,
    decreases s.len(),
{
    if s.len() > 0 && less(x, s.last()) {
        lemma_placed_len(s.drop_last(), x, less);
    }
}

proof fn lemma_sort_len<T>(s: Seq<T>, less: spec_fn(T, T) -> bool)
    ensures
        order::stable_sort(s, less).len() == s.len(),
    decreases s.len(),
{
    if s.len() > 0 {
        lemma_sort_len(s.drop_last(), less);
        lemma_placed_len(order::stable_sort(s.drop_last(), less), s.last(), less);
    }
}

/// The bytes of two texts, one after the other, add up.
pub proof fn lemma_byte_len_concat(a: Seq<char>, b: Seq<char>)
    ensures
        byte_len(a + b) == byte_len(a) + byte_len(b),
    decreases a.len(),
{
    if a.len() == 0 {
        assert(a + b =~= b);
    } else {
        let s = a + b;
        assert(s.drop_first() =~= a.drop_first() + b);
        lemma_byte_len_concat(a.drop_first(), b);
        assert(s[0] == a[0]);
        assert(vstd::utf8::encode_utf8(s) == vstd::utf8::encode_scalar(a[0] as u32)
            + vstd::utf8::encode_utf8(s.drop_first()));
        assert(vstd::utf8::encode_utf8(a) == vstd::utf8::encode_scalar(a[0] as u32)
            + vstd::utf8::encode_utf8(a.drop_first()));
    }
}

/// Number of bytes of a character.
pub open spec fn char_width(c: char) -> int {
    let u = c as u32;
    if u <= 0x7f {
        1
    } else if u <= 0x7ff {
        2
    } else if u <= 0xffff {
        3
    } else {
        4
    }
}

proof fn lemma_char_width(c: char)
    ensures
        byte_len(seq![c]) == char_width(c),
{
    let s = seq![c];
    vstd::utf8::char_is_scalar(c);
    assert(s.drop_first() =~= Seq::<char>::empty());
    assert(vstd::utf8::encode_utf8(s) == vstd::utf8::encode_scalar(c as u32)
        + vstd::utf8::encode_utf8(s.drop_first()));
    assert(vstd::utf8::encode_utf8(s.drop_first()).len() == 0);
}

proof fn lemma_front_shorter(s: Seq<char>, n: int, max: int)
    requires
        0 <= n <= s.len(),
        byte_len(s.take(n)) <= max,
        n < s.len() ==> byte_len(s.take(n + 1)) > max,
    ensures
        front_within(s, max) == s.take(n),
    decreases s.len() - n,
{
    if n == s.len() {
        assert(s.take(n) =~= s);
    } else {
        lemma_byte_len_mono(s, n + 1, s.len() as int);
        assert(s.take(s.len() as int) =~= s);
        let init = s.drop_last();
        assert(init.take(n) =~= s.take(n));
        if n < init.len() {
            assert(init.take(n + 1) =~= s.take(n + 1));
        }
        lemma_front_shorter(init, n, max);
    }
}

proof fn lemma_byte_len_mono(s: Seq<char>, m: int, n: int)
    requires
        0 <= m <= n <= s.len(),
    ensures
        byte_len(s.take(m)) <= byte_len(s.take(n)),
{
    assert(s.take(n) =~= s.take(m) + s.subrange(m, n));
    lemma_byte_len_concat(s.take(m), s.subrange(m, n));
}

/// The longest front part of `s` of at most `max_bytes` bytes.
pub fn truncate_at_char_boundary(s: &str, max_bytes: usize) -> (out: String)
    ensures
        out@ == front_within(s@, max_bytes as int),
{
    let chars = chars_of(s);
    let mut used: usize = 0;
    let mut i: usize = 0;
    assert(s@.take(0) =~= Seq::<char>::empty());
    assert(byte_len(s@.take(0)) == 0);
    while i < chars.len()
        invariant
            chars@ == s@,
            i <= chars@.len(),
            used <= max_bytes,
            used == byte_len(s@.take(i as int)),
        decreases chars@.len() - i,
    {
        let c: char = chars[i];
        let u: u32 = c as u32;
        let width: usize = if u <= 0x7f {
            1
        } else if u <= 0x7ff {
            2
        } else if u <= 0xffff {
            3
        } else {
            4
        };
        proof {
            lemma_char_width(c);
            lemma_byte_len_concat(s@.take(i as int), seq![c]);
            assert(s@.take(i + 1) =~= s@.take(i as int) + seq![c]);
        }
        if width > max_bytes - used {
            proof {
                lemma_front_shorter(s@, i as int, max_bytes as int);
            }
            let out = string_of(chars.as_slice(), 0, i);
            assert(out@ =~= s@.take(i as int));
            return out;
        }
        used += width;
        i += 1;
    }
    proof {
        lemma_front_shorter(s@, i as int, max_bytes as int);
    }
    let out = string_of(chars.as_slice(), 0, i);
    assert(out@ =~= s@.take(i as int));
    out
}

/// The block of a record with its body cut, so that the block and a line feed behind it fit
/// into `budget` tokens of four bytes. `None` if even an empty body would not fit.
pub fn truncated_block(record: &Record, file_rel: &str, budget: usize) -> (out: Option<String>)
    ensures
        ({
            let budget_bytes = if 4 * budget <= usize::MAX {
                4 * budget
            } else {
                usize::MAX as int
            };
            match out {
                Some(block) => cut_block(record@, file_rel@, budget_bytes) == Some(block@),
                None => cut_block(record@, file_rel@, budget_bytes) is None,
            }
        }),
{
    let budget_bytes: usize = match budget.checked_mul(4) {
        Some(bytes) => bytes,
        None => usize::MAX,
    };
    let prefix = head_text(record, file_rel);
    let suffix = "\n</annot>";
    let overhead: u128 = prefix.as_str().as_bytes().len() as u128 + suffix.as_bytes().len() as u128
        + 4;
    if (budget_bytes as u128) < overhead {
        return None;
    }
    let avail: usize = (budget_bytes as u128 - overhead) as usize;
    let escaped = escape_body(record.body.as_str());
    let body = truncate_at_char_boundary(escaped.as_str(), avail);
    let mut out = prefix;
    out.append(body.as_str());
    out.push(ELLIPSIS);
    out.append(suffix);
    assert(out@ =~= block_head(record@, file_rel@) + front_within(
        escaped_body(record@.body),
        avail as int,
    ) + seq![ELLIPSIS] + "\n</annot>"@);
    Some(out)
}

fn wanted_kind(kinds: Option<&[Kind]>, kind: Kind) -> (yes: bool)
    ensures
        yes == (kinds matches Some(ks) ==> ks@.contains(kind)),
{
    match kinds {
        None => true,
        Some(ks) => {
            let mut i: usize = 0;
            while i < ks.len()
                invariant
                    kinds == Some(ks),
                    i <= ks@.len(),
                    forall|j: int| 0 <= j < i ==> ks@[j] != kind,
                decreases ks@.len() - i,
            {
                if ks[i] == kind {
                    assert(ks@[i as int] == kind);
                    return true;
                }
                i += 1;
            }
            false
        },
    }
}

/// The kinds that are wanted, where a choice was made.
pub open spec fn kinds_view(kinds: Option<&[Kind]>) -> Option<Seq<Kind>> {
    match kinds {
        Some(ks) => Some(ks@),
        None => None,
    }
}

fn select<'a>(records: &'a [Record], kinds: Option<&[Kind]>) -> (out: Vec<&'a Record>)
    ensures
        refs(out@) == candidates(model::record_views(records@), kinds_view(kinds)),
{
    let ghost views = model::record_views(records@);
    let mut out: Vec<&'a Record> = Vec::new();
    let mut i: usize = 0;
    assert(refs(out@) =~= candidates(views.take(0), kinds_view(kinds)));
    while i < records.len()
        invariant
            i <= records@.len(),
            views == model::record_views(records@),
            refs(out@) == candidates(views.take(i as int), kinds_view(kinds)),
        decreases records@.len() - i,
    {
        let ghost before = refs(out@);
        assert(views.take(i + 1).drop_last() =~= views.take(i as int));
        assert(views.take(i + 1).last() == records@[i as int]@);
        let record = &records[i];
        if record.status == Status::Live && wanted_kind(kinds, record.kind) {
            out.push(record);
            assert(refs(out@) =~= before.push(record@));
        }
        i += 1;
    }
    assert(views.take(i as int) =~= views);
    out
}

fn by_priority<'a>(records: &Vec<&'a Record>) -> (out: Vec<&'a Record>)
    ensures
        refs(out@) == order::stable_sort(
            refs(records@),
            |a: RecordView, b: RecordView| priority_less(a, b),
        ),
{
    let mut unsorted: Vec<ByPriority<'a>> = Vec::new();
    let mut i: usize = 0;
    while i < records.len()
        invariant
            i <= records@.len(),
            unsorted@.len() == i,
            forall|j: int| 0 <= j < i ==> (#[trigger] unsorted@[j]).record == records@[j],
        decreases records@.len() - i,
    {
        unsorted.push(ByPriority { record: records[i] });
        i += 1;
    }
    let ghost items = unsorted@;
    let ghost seen = |p: ByPriority<'a>| p.record@;
    let ghost less = |a: RecordView, b: RecordView| priority_less(a, b);
    assert(items.map_values(seen) =~= refs(records@));
    let sorted = order::sort(unsorted);
    proof {
        order::lemma_sort_map(items, order::by_rank::<ByPriority<'a>>(), seen, less);
    }
    let mut out: Vec<&'a Record> = Vec::new();
    let mut k: usize = 0;
    while k < sorted.len()
        invariant
            k <= sorted@.len(),
            out@.len() == k,
            forall|j: int| 0 <= j < k ==> (#[trigger] out@[j]) == sorted@[j].record,
        decreases sorted@.len() - k,
    {
        out.push(sorted[k].record);
        k += 1;
    }
    assert(refs(out@) =~= sorted@.map_values(seen));
    out
}

proof fn lemma_fitting_stops(records: Seq<RecordView>, file: Seq<char>, budget: int, m: int, n: int)
    requires
        0 <= m <= n <= records.len(),
        fitting(records, file, budget, m) == m,
        m < records.len() ==> cost(records.take(m + 1), file) + 1 > 4 * budget,
    ensures
        fitting(records, file, budget, n) == m,
    decreases n,
{
    if n > m {
        lemma_fitting_stops(records, file, budget, m, n - 1);
    }
}

fn fits(ranked: &Vec<&Record>, file_rel: &str, budget: usize) -> (count: usize)
    ensures
        count <= ranked@.len(),
        count == fitting(refs(ranked@), file_rel@, budget as int, ranked@.len() as int),
{
    let ghost views = refs(ranked@);
    let limit: u128 = 4 * (budget as u128);
    let mut running: u128 = 0;
    let mut i: usize = 0;
    assert(cost(views.take(0), file_rel@) == 0);
    while i < ranked.len()
        invariant
            i <= ranked@.len(),
            views == refs(ranked@),
            limit == 4 * budget,
            running <= limit,
            running == cost(views.take(i as int), file_rel@),
            fitting(views, file_rel@, budget as int, i as int) == i,
        decreases ranked@.len() - i,
    {
        let block = format_block(ranked[i], file_rel);
        let sep: u128 = if i == 0 {
            0
        } else {
            2
        };
        let extra: u128 = block.as_str().as_bytes().len() as u128 + sep;
        proof {
            let head = views.take(i + 1);
            assert(head.drop_last() =~= views.take(i as int));
            assert(head.last() == ranked@[i as int]@);
        }
        if running + extra + 1 > limit {
            proof {
                lemma_fitting_stops(
                    views,
                    file_rel@,
                    budget as int,
                    i as int,
                    ranked@.len() as int,
                );
            }
            return i;
        }
        running = running + extra;
        i += 1;
    }
    i
}

/// What is shown of the records of a file: the live ones of the wanted kinds, as blocks by
/// position. With a token budget, those that come first by priority, as many as fit; if
/// not even one does, a cut one.
pub fn render(
    file_rel: &str,
    records: &[Record],
    kinds: Option<&[Kind]>,
    max_tokens: Option<usize>,
) -> (out: String)
    ensures
        out@ == rendered(
            file_rel@,
            model::record_views(records@),
            kinds_view(kinds),
            max_tokens,
        ),
{
    let selected = select(records, kinds);
    if selected.len() == 0 {
        let out = String::new();
        assert(out@ =~= Seq::<char>::empty());
        return out;
    }
    let budget: usize = match max_tokens {
        None => {
            return join_positional(&selected, file_rel);
        },
        Some(b) => b,
    };
    let ranked = by_priority(&selected);
    proof {
        lemma_sort_len(
            refs(selected@),
            |a: RecordView, b: RecordView| priority_less(a, b),
        );
    }
    let first = ranked[0];
    assert(refs(ranked@)[0] == first@);
    let block = format_block(first, file_rel);
    if block.as_str().as_bytes().len() as u128 + 1 > 4 * (budget as u128) {
        return match truncated_block(first, file_rel, budget) {
            Some(cut) => {
                let mut out = cut;
                out.append("\n");
                out
            },
            None => {
                let out = String::new();
                assert(out@ =~= Seq::<char>::empty());
                out
            },
        };
    }
    let count = fits(&ranked, file_rel, budget);
    let mut kept: Vec<&Record> = Vec::new();
    let mut i: usize = 0;
    while i < count
        invariant
            i <= count <= ranked@.len(),
            kept@.len() == i,
            forall|j: int| 0 <= j < i ==> (#[trigger] kept@[j]) == ranked@[j],
        decreases count - i,
    {
        kept.push(ranked[i]);
        i += 1;
    }
    assert(refs(kept@) =~= refs(ranked@).take(count as int));
    join_positional(&kept, file_rel)
}

proof fn lemma_delimiters()
    ensures
        strings::is_escape("<annot"@, "&lt;annot"@),
        strings::is_escape("</annot"@, "&lt;/annot"@),
        strings::is_escape("<annot"@, "&lt;/annot"@),
        strings::is_escape("</annot"@, "&lt;annot"@),
        strings::apart("<annot"@, "</annot"@),
        "<annot"@.len() == 6,
        "</annot"@.len() == 7,
{
    reveal_strlit("<annot");
    reveal_strlit("</annot");
    reveal_strlit("&lt;annot");
    reveal_strlit("&lt;/annot");
    assert("<annot"@[1] == 'a');
    assert("</annot"@[1] == '/');
}

/// An escaped body holds neither an opening nor a closing delimiter.
pub proof fn lemma_body_holds_no_delimiter(body: Seq<char>)
    ensures
        !strings::occurs(escaped_body(body), "<annot"@),
        !strings::occurs(escaped_body(body), "</annot"@),
{
    lemma_delimiters();
    let first = strings::replaced(body, "<annot"@, "&lt;annot"@);
    let out = escaped_body(body);
    if strings::occurs(out, "</annot"@) {
        let i = choose|i: int| strings::occurs_at(out, "</annot"@, i);
        strings::lemma_escape_removes(first, "</annot"@, "&lt;/annot"@, "</annot"@, i);
    }
    if strings::occurs(out, "<annot"@) {
        let i = choose|i: int| strings::occurs_at(out, "<annot"@, i);
        strings::lemma_escape_removes(first, "</annot"@, "&lt;/annot"@, "<annot"@, i);
        let j = choose|j: int| strings::occurs_at(first, "<annot"@, j);
        strings::lemma_escape_removes(body, "<annot"@, "&lt;annot"@, "<annot"@, j);
    }
}

/// The two delimiters can be escaped in either order.
pub proof fn lemma_escape_order(body: Seq<char>)
    ensures
        escaped_body(body) == strings::replaced(
            strings::replaced(body, "</annot"@, "&lt;/annot"@),
            "<annot"@,
            "&lt;annot"@,
        ),
{
    lemma_delimiters();
    strings::lemma_escapes_commute(body, "<annot"@, "&lt;annot"@, "</annot"@, "&lt;/annot"@);
}

/// Whatever the body, the first closing delimiter behind the opening tag is the block's
/// own, and no opening delimiter comes before it. The same holds of a body that was cut.
pub proof fn lemma_boundary_is_unique(body: Seq<char>, n: int, cut: bool, i: int)
    requires
        0 <= n <= escaped_body(body).len(),
    ensures
        ({
            let part = escaped_body(body).take(n) + if cut {
                seq![ELLIPSIS]
            } else {
                seq![]
            };
            let rest = part + "\n</annot>"@;
            &&& strings::occurs_at(rest, "</annot"@, i) <==> i == part.len() + 1
            &&& !strings::occurs_at(rest, "<annot"@, i)
        }),
{
    lemma_delimiters();
    lemma_body_holds_no_delimiter(body);
    reveal_strlit("<annot");
    reveal_strlit("</annot");
    reveal_strlit("\n</annot>");
    let whole = escaped_body(body);
    let front = whole.take(n);
    let part = front + if cut {
        seq![ELLIPSIS]
    } else {
        seq![]
    };
    let rest = part + "\n</annot>"@;
    let close = "</annot"@;
    let open = "<annot"@;
    assert("\n</annot>"@.len() == 9);
    assert(rest.subrange(part.len() as int + 1, part.len() as int + 8) =~= close);
    if strings::occurs_at(rest, close, i) {
        lemma_no_occurrence(whole, n, part, rest, close, i);
    }
    if strings::occurs_at(rest, open, i) {
        lemma_no_occurrence(whole, n, part, rest, open, i);
        assert(rest.subrange(i, i + 6)[1] == open[1]);
        assert(rest[part.len() as int + 2] == '/');
    }
}

/// An occurrence of a delimiter behind an escaped body is not in the body, and does not
/// begin in it.
proof fn lemma_no_occurrence(
    whole: Seq<char>,
    n: int,
    part: Seq<char>,
    rest: Seq<char>,
    pat: Seq<char>,
    i: int,
)
    requires
        0 <= n <= whole.len(),
        part == whole.take(n) || part == whole.take(n) + seq![ELLIPSIS],
        rest == part + "\n</annot>"@,
        pat == "<annot"@ || pat == "</annot"@,
        !strings::occurs(whole, pat),
        strings::occurs_at(rest, pat, i),
    ensures
        i == part.len() + 1,
{
    reveal_strlit("<annot");
    reveal_strlit("</annot");
    reveal_strlit("\n</annot>");
    let found = rest.subrange(i, i + pat.len());
    assert(found[0] == '<');
    assert(rest[i] == '<');
    if i + pat.len() <= n {
        assert(whole.subrange(i, i + pat.len()) =~= pat);
        assert(strings::occurs_at(whole, pat, i));
    } else if i < n {
        let c = rest[n];
        assert(c == ELLIPSIS || c == '\n');
        assert(found[n - i] == c);
        assert(pat[n - i] == c);
    } else if i <= part.len() {
        assert(rest[i] == ELLIPSIS || rest[i] == '\n');
    } else if i > part.len() + 1 {
        assert(rest[i] == "\n</annot>"@[i - part.len()]);
    }
}

/// An escaped attribute holds no quote.
pub proof fn lemma_attr_holds_no_quote(s: Seq<char>)
    ensures
        !escaped_attr(s).contains('"'),
    decreases s.len(),
{
    reveal_strlit("\"");
    reveal_strlit("&quot;");
    let pat = "\""@;
    let with = "&quot;"@;
    let out = escaped_attr(s);
    if s.len() > 0 {
        if strings::occurs_at(s, pat, 0) {
            lemma_attr_holds_no_quote(s.skip(1));
            assert(out == with + escaped_attr(s.skip(1)));
            assert forall|i: int| 0 <= i < out.len() implies out[i] != '"' by {
                if i >= with.len() {
                    assert(out[i] == escaped_attr(s.skip(1))[i - with.len()]);
                }
            }
        } else {
            lemma_attr_holds_no_quote(s.skip(1));
            assert(out == seq![s[0]] + escaped_attr(s.skip(1)));
            if s[0] == '"' {
                assert(s.subrange(0, 1) =~= pat);
            }
            assert forall|i: int| 0 <= i < out.len() implies out[i] != '"' by {
                if i > 0 {
                    assert(out[i] == escaped_attr(s.skip(1))[i - 1]);
                }
            }
        }
    }
}

/// Bytes of the blocks alone.
spec fn block_bytes(records: Seq<RecordView>, file: Seq<char>) -> int
    decreases records.len(),
{
    if records.len() == 0 {
        0
    } else {
        block_bytes(records.drop_last(), file) + byte_len(block_of(records.last(), file))
    }
}

proof fn lemma_cost(records: Seq<RecordView>, file: Seq<char>)
    ensures
        records.len() > 0 ==> cost(records, file) == block_bytes(records, file) + 2 * (
        records.len() - 1),
        records.len() == 0 ==> cost(records, file) == 0,
    decreases records.len(),
{
    if records.len() > 0 {
        lemma_cost(records.drop_last(), file);
        if records.len() == 1 {
            assert(block_bytes(records.drop_last(), file) == 0);
        }
    }
}

proof fn lemma_placed_bytes(
    sorted: Seq<RecordView>,
    x: RecordView,
    less: spec_fn(RecordView, RecordView) -> bool,
    file: Seq<char>,
)
    ensures
        block_bytes(order::placed(sorted, x, less), file) == block_bytes(sorted, file) + byte_len(
            block_of(x, file),
        ),
    decreases sorted.len(),
{
    let out = order::placed(sorted, x, less);
    if sorted.len() > 0 && less(x, sorted.last()) {
        lemma_placed_bytes(sorted.drop_last(), x, less, file);
        assert(out.drop_last() =~= order::placed(sorted.drop_last(), x, less));
    } else {
        assert(out.drop_last() =~= sorted);
    }
}

proof fn lemma_sorted_bytes(
    s: Seq<RecordView>,
    less: spec_fn(RecordView, RecordView) -> bool,
    file: Seq<char>,
)
    ensures
        block_bytes(order::stable_sort(s, less), file) == block_bytes(s, file),
    decreases s.len(),
{
    if s.len() > 0 {
        lemma_sorted_bytes(s.drop_last(), less, file);
        lemma_placed_bytes(order::stable_sort(s.drop_last(), less), s.last(), less, file);
    }
}

proof fn lemma_joined_bytes(records: Seq<RecordView>, file: Seq<char>)
    ensures
        byte_len(segments::join(blocks_of(records, file), "\n\n"@)) == cost(records, file),
    decreases records.len(),
{
    reveal_strlit("\n\n");
    let blocks = blocks_of(records, file);
    if records.len() == 0 {
        assert(blocks.len() == 0);
    } else {
        let rest = records.drop_last();
        lemma_joined_bytes(rest, file);
        assert(blocks.drop_last() =~= blocks_of(rest, file));
        assert(blocks.last() == block_of(records.last(), file));
        if records.len() == 1 {
            assert(segments::join(blocks, "\n\n"@) == blocks[0]);
            assert(blocks[0] == block_of(records.last(), file));
            assert(cost(rest, file) == 0);
        } else {
            let a = segments::join(blocks.drop_last(), "\n\n"@);
            lemma_byte_len_concat(a, "\n\n"@);
            lemma_byte_len_concat(a + "\n\n"@, blocks.last());
            assert(byte_len("\n\n"@) == 2) by {
                assert("\n\n"@ =~= seq!['\n'] + seq!['\n']);
                lemma_char_width('\n');
                lemma_byte_len_concat(seq!['\n'], seq!['\n']);
            }
        }
    }
}

proof fn lemma_positional_bytes(records: Seq<RecordView>, file: Seq<char>)
    ensures
        records.len() > 0 ==> byte_len(positional(records, file)) == cost(records, file) + 1,
{
    if records.len() > 0 {
        let less = |a: RecordView, b: RecordView| positional_less(a, b);
        let sorted = order::stable_sort(records, less);
        lemma_sort_len(records, less);
        lemma_sorted_bytes(records, less, file);
        lemma_cost(records, file);
        lemma_cost(sorted, file);
        lemma_joined_bytes(sorted, file);
        reveal_strlit("\n");
        lemma_char_width('\n');
        assert("\n"@ =~= seq!['\n']);
        lemma_byte_len_concat(segments::join(blocks_of(sorted, file), "\n\n"@), "\n"@);
    }
}

proof fn lemma_fitting_fits(records: Seq<RecordView>, file: Seq<char>, budget: int, n: int)
    requires
        0 <= n <= records.len(),
    ensures
        0 <= fitting(records, file, budget, n) <= n,
        fitting(records, file, budget, n) > 0 ==> cost(
            records.take(fitting(records, file, budget, n)),
            file,
        ) + 1 <= 4 * budget,
    decreases n,
{
    if n > 0 {
        lemma_fitting_fits(records, file, budget, n - 1);
    }
}

proof fn lemma_front_fits(s: Seq<char>, max: int)
    requires
        0 <= max,
    ensures
        byte_len(front_within(s, max)) <= max,
    decreases s.len(),
{
    if s.len() > 0 && byte_len(s) > max {
        lemma_front_fits(s.drop_last(), max);
    }
}

/// What is shown never takes more than its budget of four bytes a token.
pub proof fn lemma_render_within_budget(
    file: Seq<char>,
    records: Seq<RecordView>,
    kinds: Option<Seq<Kind>>,
    budget: usize,
)
    ensures
        byte_len(rendered(file, records, kinds, Some(budget))) <= 4 * budget,
{
    let all = candidates(records, kinds);
    if all.len() > 0 {
        let less = |a: RecordView, b: RecordView| priority_less(a, b);
        let ranked = order::stable_sort(all, less);
        lemma_sort_len(all, less);
        let first = ranked[0];
        if byte_len(block_of(first, file)) + 1 > 4 * budget {
            if let Some(block) = cut_block(first, file, 4 * budget) {
                let head = block_head(first, file);
                let tail = "\n</annot>"@;
                let overhead = byte_len(head) + byte_len(tail) + 4;
                let body = front_within(escaped_body(first.body), 4 * budget - overhead);
                lemma_front_fits(escaped_body(first.body), 4 * budget - overhead);
                lemma_byte_len_concat(head, body);
                lemma_byte_len_concat(head + body, seq![ELLIPSIS]);
                lemma_byte_len_concat(head + body + seq![ELLIPSIS], tail);
                lemma_char_width(ELLIPSIS);
                reveal_strlit("\n");
                lemma_char_width('\n');
                assert("\n"@ =~= seq!['\n']);
                lemma_byte_len_concat(block, "\n"@);
            }
        } else {
            let n = fitting(ranked, file, budget as int, ranked.len() as int);
            lemma_fitting_fits(ranked, file, budget as int, ranked.len() as int);
            lemma_positional_bytes(ranked.take(n), file);
        }
    }
}

/// Only live records of the wanted kinds are shown.
pub proof fn lemma_candidates_are_shown(
    records: Seq<RecordView>,
    kinds: Option<Seq<Kind>>,
    i: int,
)
    requires
        0 <= i < candidates(records, kinds).len(),
    ensures
        shown(candidates(records, kinds)[i], kinds),
        records.contains(candidates(records, kinds)[i]),
    decreases records.len(),
{
    let rest = candidates(records.drop_last(), kinds);
    if i < rest.len() {
        lemma_candidates_are_shown(records.drop_last(), kinds, i);
        let k = choose|k: int| 0 <= k < records.drop_last().len() && records.drop_last()[k] == rest[i];
        assert(records[k] == rest[i]);
    } else {
        assert(records[records.len() - 1] == records.last());
    }
}

/// Every live record of a wanted kind is a candidate, and without a budget every candidate
/// is shown.
pub proof fn lemma_shown_are_candidates(
    file: Seq<char>,
    records: Seq<RecordView>,
    kinds: Option<Seq<Kind>>,
    i: int,
)
    requires
        0 <= i < records.len(),
        shown(records[i], kinds),
    ensures
        candidates(records, kinds).contains(records[i]),
        rendered(file, records, kinds, None) == positional(candidates(records, kinds), file),
    decreases records.len(),
{
    let all = candidates(records, kinds);
    let rest = candidates(records.drop_last(), kinds);
    if i == records.len() - 1 {
        assert(all.last() == records[i]);
        assert(all[all.len() - 1] == records[i]);
    } else {
        lemma_shown_are_candidates(file, records.drop_last(), kinds, i);
        let k = choose|k: int| 0 <= k < rest.len() && rest[k] == records[i];
        assert(all[k] == records[i]);
    }
}

proof fn lemma_candidates_filter(records: Seq<RecordView>, kinds: Option<Seq<Kind>>)
    ensures
        candidates(records, kinds) == records.filter(
            |r: RecordView|
                r.status == Status::Live && (kinds matches Some(ks) ==> ks.contains(r.kind)),
        ),
    decreases records.len(),
{
    reveal(Seq::filter);
    if records.len() > 0 {
        lemma_candidates_filter(records.drop_last(), kinds);
    }
}

/// What is shown without a budget: every live record whose kind is among the wanted ones, or
/// every live record where no choice was made, each once and nothing else, as blocks from the
/// top of the file to its end, a blank line between neighbours and a line feed at the end.
pub proof fn lemma_every_wanted_record_is_shown(
    file: Seq<char>,
    records: Seq<RecordView>,
    kinds: Option<Seq<Kind>>,
) -> (shown: Seq<RecordView>)
    ensures
        shown.to_multiset() == records.filter(
            |r: RecordView|
                r.status == Status::Live && (kinds matches Some(ks) ==> ks.contains(r.kind)),
        ).to_multiset(),
        forall|i: int, j: int|
            0 <= i < j < shown.len() ==> (#[trigger] shown[i]).anchor.start < (
            #[trigger] shown[j]).anchor.start || (shown[i].anchor.start == shown[j].anchor.start
                && shown[i].id.0 <= shown[j].id.0),
        rendered(file, records, kinds, None) == if shown.len() == 0 {
            seq![]
        } else {
            segments::join(shown.map_values(|r: RecordView| block_of(r, file)), seq!['\n', '\n'])
                + seq!['\n']
        },
{
    let all = candidates(records, kinds);
    let less = |a: RecordView, b: RecordView| positional_less(a, b);
    let shown = order::stable_sort(all, less);
    lemma_candidates_filter(records, kinds);
    lemma_render_orders();
    order::lemma_stable_sort(all, less);
    lemma_position_order(shown);
    lemma_positional_text(all, file);
    shown
}

proof fn lemma_position_order(shown: Seq<RecordView>)
    requires
        order::is_sorted(shown, |a: RecordView, b: RecordView| positional_less(a, b)),
    ensures
        forall|i: int, j: int|
            0 <= i < j < shown.len() ==> (#[trigger] shown[i]).anchor.start < (
            #[trigger] shown[j]).anchor.start || (shown[i].anchor.start == shown[j].anchor.start
                && shown[i].id.0 <= shown[j].id.0),
{
    let less = |a: RecordView, b: RecordView| positional_less(a, b);
    assert forall|i: int, j: int| 0 <= i < j < shown.len() implies (
    #[trigger] shown[i]).anchor.start < (#[trigger] shown[j]).anchor.start || (
    shown[i].anchor.start == shown[j].anchor.start && shown[i].id.0 <= shown[j].id.0) by {
        assert(!less(shown[j], shown[i]));
    }
}

proof fn lemma_positional_text(records: Seq<RecordView>, file: Seq<char>)
    ensures
        positional(records, file) == if records.len() == 0 {
            seq![]
        } else {
            segments::join(
                order::stable_sort(
                    records,
                    |a: RecordView, b: RecordView| positional_less(a, b),
                ).map_values(|r: RecordView| block_of(r, file)),
                seq!['\n', '\n'],
            ) + seq!['\n']
        },
{
    reveal_strlit("\n\n");
    reveal_strlit("\n");
    assert("\n\n"@ =~= seq!['\n', '\n']);
    assert("\n"@ =~= seq!['\n']);
}

/// Without a budget the block of every live record of a wanted kind stands in the output, and
/// the output is empty only if there is no such record.
pub proof fn lemma_wanted_block_occurs(
    file: Seq<char>,
    records: Seq<RecordView>,
    kinds: Option<Seq<Kind>>,
    i: int,
) -> (around: (Seq<char>, Seq<char>))
    requires
        0 <= i < records.len(),
        records[i].status == Status::Live,
        kinds matches Some(ks) ==> ks.contains(records[i].kind),
    ensures
        rendered(file, records, kinds, None) == around.0 + block_of(records[i], file) + around.1,
{
    broadcast use vstd::seq_lib::group_to_multiset_ensures;

    let shown = lemma_every_wanted_record_is_shown(file, records, kinds);
    let wanted = |r: RecordView|
        r.status == Status::Live && (kinds matches Some(ks) ==> ks.contains(r.kind));
    records.lemma_filter_contains(wanted, i);
    assert(records.filter(wanted).to_multiset().count(records[i]) > 0);
    assert(shown.contains(records[i]));
    let k = choose|k: int| 0 <= k < shown.len() && shown[k] == records[i];
    let blocks = shown.map_values(|r: RecordView| block_of(r, file));
    let (x, y) = segments::lemma_part_of_join(blocks, seq!['\n', '\n'], k);
    let out = rendered(file, records, kinds, None);
    assert(out =~= x + block_of(records[i], file) + (y + seq!['\n']));
    (x, y + seq!['\n'])
}

/// With a budget the blocks of the records that come first by kind, place and id are shown, as
/// many as take no more than four bytes a token together: `ranked` are the wanted records in
/// that order, of which the first `n` are shown, from the top of the file to its end. One more
/// would be too many. If not even one fits, the first one is shown with its body cut as
/// late as the budget allows, or nothing if no room is left for a body at all.
pub proof fn lemma_budget_is_used_up(
    file: Seq<char>,
    records: Seq<RecordView>,
    kinds: Option<Seq<Kind>>,
    budget: usize,
) -> (out: (Seq<RecordView>, int, Seq<RecordView>, int))
    ensures
        ({
            let (ranked, n, shown, cut) = out;
            let text = rendered(file, records, kinds, Some(budget));
            let rank = |kind: Kind|
                match kind {
                    Kind::Gotcha => 0int,
                    Kind::Decision => 1,
                    Kind::Todo => 2,
                    Kind::History => 3,
                };
            let whole = |s: Seq<RecordView>|
                segments::join(s.map_values(|r: RecordView| block_of(r, file)), seq!['\n', '\n'])
                    + seq!['\n'];
            let tail = seq![ELLIPSIS] + "\n</annot>"@ + seq!['\n'];
            &&& ranked.to_multiset() == records.filter(
                |r: RecordView|
                    r.status == Status::Live && (kinds matches Some(ks) ==> ks.contains(r.kind)),
            ).to_multiset()
            &&& forall|i: int, j: int|
                0 <= i < j < ranked.len() ==> {
                    let (a, b) = (#[trigger] ranked[i], #[trigger] ranked[j]);
                    ||| rank(a.kind) < rank(b.kind)
                    ||| a.kind == b.kind && a.anchor.start < b.anchor.start
                    ||| a.kind == b.kind && a.anchor.start == b.anchor.start && a.id.0 <= b.id.0
                }
            &&& 0 <= n <= ranked.len()
            &&& n > 0 ==> vstd::utf8::encode_utf8(whole(ranked.take(n))).len() <= 4 * budget
            &&& n < ranked.len() ==> vstd::utf8::encode_utf8(whole(ranked.take(n + 1))).len() > 4
                * budget
            &&& shown.to_multiset() == ranked.take(n).to_multiset()
            &&& forall|i: int, j: int|
                0 <= i < j < shown.len() ==> (#[trigger] shown[i]).anchor.start < (
                #[trigger] shown[j]).anchor.start || (shown[i].anchor.start
                    == shown[j].anchor.start && shown[i].id.0 <= shown[j].id.0)
            &&& n > 0 ==> text == whole(shown)
            &&& ranked.len() == 0 ==> text == Seq::<char>::empty()
            &&& n == 0 && ranked.len() > 0 ==> {
                let head = block_head(ranked[0], file);
                let body = escaped_body(ranked[0].body);
                if vstd::utf8::encode_utf8(head + tail).len() > 4 * budget {
                    text == Seq::<char>::empty()
                } else {
                    &&& 0 <= cut < body.len()
                    &&& text == head + body.take(cut) + tail
                    &&& vstd::utf8::encode_utf8(head + body.take(cut) + tail).len() <= 4 * budget
                    &&& vstd::utf8::encode_utf8(head + body.take(cut + 1) + tail).len() > 4
                        * budget
                }
            }
        }),
{
    broadcast use vstd::seq_lib::group_to_multiset_ensures;

    let all = candidates(records, kinds);
    let less = |a: RecordView, b: RecordView| priority_less(a, b);
    let by_place = |a: RecordView, b: RecordView| positional_less(a, b);
    let ranked = order::stable_sort(all, less);
    lemma_candidates_filter(records, kinds);
    lemma_render_orders();
    order::lemma_stable_sort(all, less);
    assert forall|i: int, j: int| 0 <= i < j < ranked.len() implies {
        let (a, b) = (#[trigger] ranked[i], #[trigger] ranked[j]);
        ||| kind_rank(a.kind) < kind_rank(b.kind)
        ||| a.kind == b.kind && a.anchor.start < b.anchor.start
        ||| a.kind == b.kind && a.anchor.start == b.anchor.start && a.id.0 <= b.id.0
    } by {
        assert(!less(ranked[j], ranked[i]));
    }
    let text = rendered(file, records, kinds, Some(budget));
    if all.len() == 0 {
        assert(ranked.take(0) =~= Seq::<RecordView>::empty());
        return (ranked, 0, Seq::empty(), 0);
    }
    let limit = 4 * budget;
    let first = ranked[0];
    lemma_joined_size(ranked.take(1), file);
    assert(ranked.take(1).drop_last() =~= Seq::<RecordView>::empty());
    assert(cost(ranked.take(1), file) == byte_len(block_of(first, file))) by {
        assert(ranked.take(1).last() == first);
        assert(cost(ranked.take(1).drop_last(), file) == 0);
    }
    if byte_len(block_of(first, file)) + 1 > limit {
        let cut = lemma_cut_is_latest(first, file, limit as int);
        assert(ranked.take(0) =~= Seq::<RecordView>::empty());
        return (ranked, 0, Seq::empty(), cut);
    }
    let n = fitting(ranked, file, budget as int, ranked.len() as int);
    lemma_fitting_fits(ranked, file, budget as int, ranked.len() as int);
    lemma_fitting_longest(ranked, file, budget as int, ranked.len() as int);
    let taken = ranked.take(n);
    let shown = order::stable_sort(taken, by_place);
    order::lemma_stable_sort(taken, by_place);
    lemma_position_order(shown);
    lemma_positional_text(taken, file);
    lemma_joined_size(taken, file);
    if n < ranked.len() {
        lemma_joined_size(ranked.take(n + 1), file);
    }
    (ranked, n, shown, 0)
}

/// The bytes of blocks put together, with the line feed at the end.
proof fn lemma_joined_size(records: Seq<RecordView>, file: Seq<char>)
    ensures
        vstd::utf8::encode_utf8(
            segments::join(
                records.map_values(|r: RecordView| block_of(r, file)),
                seq!['\n', '\n'],
            ) + seq!['\n'],
        ).len() == cost(records, file) + 1,
{
    reveal_strlit("\n\n");
    assert("\n\n"@ =~= seq!['\n', '\n']);
    lemma_joined_bytes(records, file);
    lemma_char_width('\n');
    lemma_byte_len_concat(segments::join(blocks_of(records, file), "\n\n"@), seq!['\n']);
}

proof fn lemma_fitting_longest(records: Seq<RecordView>, file: Seq<char>, budget: int, n: int)
    requires
        0 <= n <= records.len(),
        n > 0 ==> cost(records.take(1), file) + 1 <= 4 * budget,
    ensures
        n > 0 ==> fitting(records, file, budget, n) > 0,
        fitting(records, file, budget, n) < n ==> cost(
            records.take(fitting(records, file, budget, n) + 1),
            file,
        ) + 1 > 4 * budget,
    decreases n,
{
    if n > 0 {
        lemma_fitting_longest(records, file, budget, n - 1);
        lemma_fitting_fits(records, file, budget, n - 1);
    }
}

/// Where the body of a block that is too long is cut.
proof fn lemma_cut_is_latest(record: RecordView, file: Seq<char>, limit: int) -> (cut: int)
    requires
        byte_len(block_of(record, file)) + 1 > limit,
    ensures
        ({
            let head = block_head(record, file);
            let body = escaped_body(record.body);
            let tail = seq![ELLIPSIS] + "\n</annot>"@ + seq!['\n'];
            match cut_block(record, file, limit) {
                None => vstd::utf8::encode_utf8(head + tail).len() > limit,
                Some(block) => {
                    &&& vstd::utf8::encode_utf8(head + tail).len() <= limit
                    &&& 0 <= cut < body.len()
                    &&& block + "\n"@ == head + body.take(cut) + tail
                    &&& vstd::utf8::encode_utf8(head + body.take(cut) + tail).len() <= limit
                    &&& vstd::utf8::encode_utf8(head + body.take(cut + 1) + tail).len() > limit
                },
            }
        }),
{
    let head = block_head(record, file);
    let body = escaped_body(record.body);
    let close = "\n</annot>"@;
    let tail = seq![ELLIPSIS] + close + seq!['\n'];
    let overhead = byte_len(head) + byte_len(close) + 4;
    lemma_char_width(ELLIPSIS);
    lemma_char_width('\n');
    lemma_byte_len_concat(seq![ELLIPSIS], close);
    lemma_byte_len_concat(seq![ELLIPSIS] + close, seq!['\n']);
    lemma_byte_len_concat(head, tail);
    assert(byte_len(head + tail) == overhead);
    lemma_byte_len_concat(head, body);
    lemma_byte_len_concat(head + body, close);
    let cut = lemma_front_is_longest(body, limit - overhead);
    if limit >= overhead {
        let front = body.take(cut);
        lemma_byte_len_concat(head, front);
        lemma_byte_len_concat(head + front, tail);
        reveal_strlit("\n");
        assert("\n"@ =~= seq!['\n']);
        assert(cut_block(record, file, limit)->0 + "\n"@ =~= head + front + tail);
        if cut == body.len() {
            assert(front =~= body);
        } else {
            let longer = body.take(cut + 1);
            lemma_byte_len_concat(head, longer);
            lemma_byte_len_concat(head + longer, tail);
        }
    }
    cut
}

/// What is left of a text that is cut is a front part of it, within the limit, and one more
/// character would be beyond it.
pub proof fn lemma_front_is_longest(s: Seq<char>, max: int) -> (n: int)
    ensures
        0 <= n <= s.len(),
        front_within(s, max) == s.take(n),
        0 <= max ==> vstd::utf8::encode_utf8(s.take(n)).len() <= max,
        n < s.len() ==> vstd::utf8::encode_utf8(s.take(n + 1)).len() > max,
    decreases s.len(),
{
    if s.len() == 0 || byte_len(s) <= max {
        assert(s.take(s.len() as int) =~= s);
        s.len() as int
    } else {
        let init = s.drop_last();
        let n = lemma_front_is_longest(init, max);
        assert(init.take(n) =~= s.take(n));
        if n < init.len() {
            assert(init.take(n + 1) =~= s.take(n + 1));
        } else {
            assert(s.take(n + 1) =~= s);
        }
        n
    }
}

/// A budget that everything fits into changes nothing.
pub proof fn lemma_ample_budget(
    file: Seq<char>,
    records: Seq<RecordView>,
    kinds: Option<Seq<Kind>>,
    budget: usize,
)
    requires
        forall|i: int, j: int|
            0 <= i < j < records.len() ==> (#[trigger] records[i]).id != (#[trigger] records[j]).id,
        vstd::utf8::encode_utf8(rendered(file, records, kinds, None)).len() <= 4 * budget,
    ensures
        rendered(file, records, kinds, Some(budget)) == rendered(file, records, kinds, None),
{
    broadcast use vstd::seq_lib::group_to_multiset_ensures;

    let all = candidates(records, kinds);
    let less = |a: RecordView, b: RecordView| priority_less(a, b);
    let by_place = |a: RecordView, b: RecordView| positional_less(a, b);
    if all.len() > 0 {
        let ranked = order::stable_sort(all, less);
        let shown = order::stable_sort(all, by_place);
        let again = order::stable_sort(ranked, by_place);
        lemma_render_orders();
        order::lemma_stable_sort(all, less);
        order::lemma_stable_sort(all, by_place);
        order::lemma_stable_sort(ranked, by_place);
        lemma_positional_bytes(all, file);
        lemma_sorted_bytes(all, less, file);
        lemma_cost(all, file);
        lemma_cost(ranked, file);
        let n = ranked.len() as int;
        assert(cost(ranked, file) + 1 <= 4 * budget);
        assert forall|m: int| 0 <= m <= n implies cost(#[trigger] ranked.take(m), file) <= cost(
            ranked,
            file,
        ) by {
            lemma_cost_mono(ranked, file, m);
        }
        lemma_all_fit(ranked, file, budget as int, n);
        assert(ranked.take(n) =~= ranked);
        assert(cost(ranked.take(1), file) <= cost(ranked, file));
        assert(ranked.take(1).drop_last() =~= Seq::<RecordView>::empty());
        assert(ranked.take(1).last() == ranked[0]);
        assert(cost(ranked.take(1).drop_last(), file) == 0);
        lemma_candidates_distinct(records, kinds);
        lemma_distinct_sorted(all, shown);
        lemma_distinct_sorted(all, again);
        order::lemma_sorted_unique(shown, again, by_place);
    }
}

proof fn lemma_cost_mono(records: Seq<RecordView>, file: Seq<char>, m: int)
    requires
        0 <= m <= records.len(),
    ensures
        cost(records.take(m), file) <= cost(records, file),
    decreases records.len() - m,
{
    if m == records.len() {
        assert(records.take(m) =~= records);
    } else {
        lemma_cost_mono(records, file, m + 1);
        assert(records.take(m + 1).drop_last() =~= records.take(m));
    }
}

proof fn lemma_all_fit(records: Seq<RecordView>, file: Seq<char>, budget: int, n: int)
    requires
        0 <= n <= records.len(),
        forall|m: int|
            0 <= m <= records.len() ==> cost(#[trigger] records.take(m), file) + 1 <= 4 * budget,
    ensures
        fitting(records, file, budget, n) == n,
    decreases n,
{
    if n > 0 {
        lemma_all_fit(records, file, budget, n - 1);
        assert(cost(records.take(n), file) + 1 <= 4 * budget);
    }
}

proof fn lemma_candidates_distinct(records: Seq<RecordView>, kinds: Option<Seq<Kind>>)
    requires
        forall|i: int, j: int|
            0 <= i < j < records.len() ==> (#[trigger] records[i]).id != (#[trigger] records[j]).id,
    ensures
        forall|i: int, j: int|
            0 <= i < j < candidates(records, kinds).len() ==> (#[trigger] candidates(
                records,
                kinds,
            )[i]).id != (#[trigger] candidates(records, kinds)[j]).id,
    decreases records.len(),
{
    if records.len() > 0 {
        let rest = records.drop_last();
        let all = candidates(records, kinds);
        let fewer = candidates(rest, kinds);
        lemma_candidates_distinct(rest, kinds);
        assert forall|i: int, j: int| 0 <= i < j < all.len() implies (#[trigger] all[i]).id != (
        #[trigger] all[j]).id by {
            if j < fewer.len() {
                assert(fewer[i].id != fewer[j].id);
            } else {
                lemma_candidates_are_shown(rest, kinds, i);
                let k = choose|k: int| 0 <= k < rest.len() && rest[k] == fewer[i];
                assert(records[k].id != records[records.len() - 1].id);
            }
        }
    }
}

proof fn lemma_distinct_sorted(records: Seq<RecordView>, sorted: Seq<RecordView>)
    requires
        forall|i: int, j: int|
            0 <= i < j < records.len() ==> (#[trigger] records[i]).id != (#[trigger] records[j]).id,
        sorted.to_multiset() == records.to_multiset(),
        order::is_sorted(sorted, |a: RecordView, b: RecordView| positional_less(a, b)),
    ensures
        forall|i: int, j: int|
            0 <= i < j < sorted.len() ==> positional_less(
                #[trigger] sorted[i],
                #[trigger] sorted[j],
            ),
{
    broadcast use vstd::seq_lib::group_to_multiset_ensures;

    let less = |a: RecordView, b: RecordView| positional_less(a, b);
    assert(records.no_duplicates()) by {
        assert forall|i: int, j: int| 0 <= i < records.len() && 0 <= j < records.len() && i
            != j implies records[i] != records[j] by {
            if i < j {
                assert(records[i].id != records[j].id);
            } else {
                assert(records[j].id != records[i].id);
            }
        }
    }
    records.lemma_multiset_has_no_duplicates();
    sorted.lemma_multiset_has_no_duplicates_conv();
    assert forall|i: int, j: int| 0 <= i < j < sorted.len() implies positional_less(
        #[trigger] sorted[i],
        #[trigger] sorted[j],
    ) by {
        assert(!less(sorted[j], sorted[i]));
        assert(sorted.contains(sorted[i]) && sorted.contains(sorted[j]));
        assert(records.to_multiset().count(sorted[i]) > 0);
        assert(records.to_multiset().count(sorted[j]) > 0);
        assert(records.contains(sorted[i]) && records.contains(sorted[j]));
        let p = choose|p: int| 0 <= p < records.len() && records[p] == sorted[i];
        let q = choose|q: int| 0 <= q < records.len() && records[q] == sorted[j];
        assert(p != q);
        if p < q {
            assert(records[p].id != records[q].id);
        } else {
            assert(records[q].id != records[p].id);
        }
    }
}

/// The block of an annotation: its id, file, lines and kind in the opening tag, then its body
/// on lines of its own, then the closing tag.
pub proof fn lemma_block_tells(record: RecordView, file: Seq<char>)
    ensures
        block_of(record, file) == "<annot untrusted=\"true\" id=\""@ + id::id_text(record.id)
            + "\" file=\""@ + escaped_attr(file) + "\" lines=\""@ + text::decimal(
            record.anchor.start as nat,
        ) + "-"@ + text::decimal(record.anchor.end as nat) + "\" kind=\""@ + (match record.kind {
            Kind::Decision => "decision"@,
            Kind::Gotcha => "gotcha"@,
            Kind::Todo => "todo"@,
            Kind::History => "history"@,
        }) + "\">\n"@ + escaped_body(record.body) + "\n</annot>"@,
{
    model::lemma_words();
}

/// A body without a delimiter is shown as it is. In any other, every opening delimiter is
/// shown as `&lt;annot` and every closing one as `&lt;/annot`, and what stands around them is
/// dealt with on its own.
pub proof fn lemma_body_is_escaped(x: Seq<char>, y: Seq<char>)
    ensures
        !strings::occurs(x, "<annot"@) && !strings::occurs(x, "</annot"@) ==> escaped_body(x) == x,
        escaped_body(x + "<annot"@ + y) == escaped_body(x) + "&lt;annot"@ + escaped_body(y),
        escaped_body(x + "</annot"@ + y) == escaped_body(x) + "&lt;/annot"@ + escaped_body(y),
{
    let (p, v) = ("<annot"@, "&lt;annot"@);
    let (q, w) = ("</annot"@, "&lt;/annot"@);
    lemma_delimiters();
    reveal_strlit("<annot");
    reveal_strlit("</annot");
    strings::lemma_replaced_around(x, y, p, v);
    strings::lemma_replaced_around(x, y, q, w);
    lemma_escape_order(x);
    lemma_escape_order(y);
    lemma_escape_order(x + q + y);
    let (a, b) = (strings::replaced(x, p, v), strings::replaced(y, p, v));
    strings::lemma_replaced_beside(a, v, b, q, w);
    let (c, d) = (strings::replaced(x, q, w), strings::replaced(y, q, w));
    strings::lemma_replaced_beside(c, w, d, p, v);
}

/// A text without a quote stays as it is in an attribute; every quote in any other is shown as
/// `&quot;`.
pub proof fn lemma_attr_is_escaped(x: Seq<char>, y: Seq<char>)
    ensures
        !x.contains('"') ==> escaped_attr(x) == x,
        escaped_attr(x + seq!['"'] + y) == escaped_attr(x) + "&quot;"@ + escaped_attr(y),
{
    reveal_strlit("\"");
    assert("\""@ =~= seq!['"']);
    strings::lemma_replaced_around(x, y, "\""@, "&quot;"@);
    if !x.contains('"') && strings::occurs(x, "\""@) {
        let i = choose|i: int| strings::occurs_at(x, "\""@, i);
        assert(x.subrange(i, i + 1)[0] == x[i]);
    }
}

} // verus!
