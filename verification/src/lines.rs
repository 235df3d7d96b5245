//! The lines of a file: cutting, normalising and hashing them.

use vstd::prelude::*;

use vstd::slice::slice_subrange;
use vstd::string::StringExecFns;

use crate::segments;
use crate::text;
use crate::text::hex16;

verus! {

broadcast use vstd::string::group_string_axioms;

/// Lines of context hashed on each side of an anchor.
pub const CTX_LINES: usize = 3;

/// Number of leading bytes in which a NUL marks a file as binary.
pub const BINARY_SNIFF_BYTES: usize = 8192;

/// The byte that ends a line.
pub const NEWLINE: u8 = 10;

/// The bytes of each slice.
pub open spec fn slices(v: Seq<&[u8]>) -> Seq<Seq<u8>> {
    v.map_values(|s: &[u8]| s@)
}

/// The lines of a file without their newlines. A final newline ends the last line
/// and starts none.
pub open spec fn lines_of(bytes: Seq<u8>) -> Seq<Seq<u8>> {
    let pieces = segments::split(bytes, NEWLINE);
    if pieces.last().len() == 0 {
        pieces.drop_last()
    } else {
        pieces
    }
}

/// Whether `b` is a space, tab, line feed, form feed or carriage return.
pub open spec fn is_blank(b: u8) -> bool {
    b == 32 || b == 9 || b == 10 || b == 12 || b == 13
}

/// `line` without trailing blanks.
pub open spec fn trimmed(line: Seq<u8>) -> Seq<u8>
    decreases line.len(),
{
    if line.len() > 0 && is_blank(line.last()) {
        trimmed(line.drop_last())
    } else {
        line
    }
}

/// Whether one of the first 8192 bytes is zero.
pub open spec fn looks_binary(bytes: Seq<u8>) -> bool {
    exists|i: int| 0 <= i < bytes.len() && i < BINARY_SNIFF_BYTES && bytes[i] == 0
}

/// The number whose base-256 digits are `s`, most significant first.
pub open spec fn big_endian(s: Seq<u8>) -> nat
    decreases s.len(),
{
    if s.len() == 0 {
        0
    } else {
        big_endian(s.drop_last()) * 256 + s.last() as nat
    }
}

/// The SHA-1 digest of `bytes`; `None` where the hasher reports that the input was
/// built to collide with another.
pub uninterp spec fn sha1_digest(bytes: Seq<u8>) -> Option<Seq<u8>>;

/// The leading 64 bits of a digest, and zero for a missing one.
pub open spec fn digest_head(digest: Option<Seq<u8>>) -> u64 {
    match digest {
        Some(d) => big_endian(d.take(8)) as u64,
        None => 0,
    }
}

/// The 64-bit hash of `parts` joined by newlines.
pub open spec fn hash64_of(parts: Seq<Seq<u8>>) -> u64 {
    digest_head(sha1_digest(segments::join(parts, seq![NEWLINE])))
}

/// The hash of one line, blind to trailing blanks.
pub open spec fn line_hash(line: Seq<u8>) -> u64 {
    hash64_of(seq![trimmed(line)])
}

/// The hash of a run of lines, blind to trailing blanks.
pub open spec fn ctx_hash_of(lines: Seq<Seq<u8>>) -> u64 {
    hash64_of(lines.map_values(|l: Seq<u8>| trimmed(l)))
}

/// The hash of the up to three lines that end before line `p`.
pub open spec fn before_hash(lines: Seq<Seq<u8>>, p: int) -> u64 {
    ctx_hash_of(lines.subrange(if p >= CTX_LINES { p - CTX_LINES } else { 0 }, p))
}

/// The hash of the up to three lines from line `p` on.
pub open spec fn after_hash(lines: Seq<Seq<u8>>, p: int) -> u64 {
    ctx_hash_of(
        lines.subrange(
            p,
            if p + CTX_LINES <= lines.len() {
                p + CTX_LINES
            } else {
                lines.len() as int
            },
        ),
    )
}

/// The text of `bytes` with every invalid part of its UTF-8 replaced.
pub uninterp spec fn utf8_lossy(bytes: Seq<u8>) -> Seq<char>;

/// The text of `bytes`: the characters that they encode, if they are valid UTF-8.
pub open spec fn text_of(bytes: Seq<u8>) -> Seq<char> {
    if vstd::utf8::valid_utf8(bytes) {
        vstd::utf8::decode_utf8(bytes)
    } else {
        utf8_lossy(bytes)
    }
}

/// The texts of `lines`, joined by newlines.
pub open spec fn snippet_of(lines: Seq<Seq<u8>>) -> Seq<char> {
    segments::join(lines.map_values(|l: Seq<u8>| text_of(l)), seq!['\n'])
}

/// Whether every line is valid UTF-8.
pub open spec fn all_utf8(lines: Seq<Seq<u8>>) -> bool {
    forall|i: int| 0 <= i < lines.len() ==> vstd::utf8::valid_utf8(#[trigger] lines[i])
}

/// The characters that `lines` encode, joined by newlines.
pub open spec fn decoded(lines: Seq<Seq<u8>>) -> Seq<char> {
    segments::join(lines.map_values(|l: Seq<u8>| vstd::utf8::decode_utf8(l)), seq!['\n'])
}

/// The snippet of lines that are valid UTF-8 is their exact text.
pub proof fn lemma_snippet_is_exact(lines: Seq<Seq<u8>>)
    requires
        all_utf8(lines),
    ensures
        snippet_of(lines) == decoded(lines),
{
    assert(lines.map_values(|l: Seq<u8>| text_of(l)) =~= lines.map_values(
        |l: Seq<u8>| vstd::utf8::decode_utf8(l),
    ));
}

/// The stored form of the hashes of `lines`.
pub open spec fn hash_texts(lines: Seq<Seq<u8>>) -> Seq<Seq<char>> {
    lines.map_values(|l: Seq<u8>| text::hex_digits(line_hash(l) as nat, 16))
}

/// The gix SHA-1 hasher: `hasher`, one `update` with `bytes`, `try_finalize`. The
/// digest is a function of the bytes, 20 bytes long, and missing only when the
/// hasher detects a collision attack.
#[verifier::external_body]
fn sha1(bytes: &[u8]) -> (digest: Option<Vec<u8>>)
    ensures
        match digest {
            Some(d) => sha1_digest(bytes@) == Some(d@) && d@.len() == 20,
            None => sha1_digest(bytes@) is None,
        },
{
    let mut hasher = gix::hash::hasher(gix::hash::Kind::Sha1);
    hasher.update(bytes);
    match hasher.try_finalize() {
        Ok(id) => Some(id.as_bytes().to_vec()),
        Err(_) => None,
    }
}

/// `String::from_utf8_lossy`: a function of the bytes; valid UTF-8 is decoded as it
/// stands.
#[verifier::external_body]
pub(crate) fn lossy(bytes: &[u8]) -> (s: String)
    ensures
        s@ == utf8_lossy(bytes@),
        vstd::utf8::valid_utf8(bytes@) ==> s@ == vstd::utf8::decode_utf8(bytes@),
{
    String::from_utf8_lossy(bytes).into_owned()
}

/// The pieces of `bytes` between newlines; always at least one.
fn split_at_newlines(bytes: &[u8]) -> (out: Vec<&[u8]>)
    ensures
        slices(out@) == segments::split(bytes@, NEWLINE),
{
    let mut out: Vec<&[u8]> = Vec::new();
    let mut start: usize = 0;
    let mut i: usize = 0;
    assert(bytes@.take(0) =~= Seq::<u8>::empty());
    assert(slices(out@).push(bytes@.subrange(0, 0)) =~= segments::split(bytes@.take(0), NEWLINE));
    while i < bytes.len()
        invariant
            start <= i <= bytes@.len(),
            slices(out@).push(bytes@.subrange(start as int, i as int)) == segments::split(
                bytes@.take(i as int),
                NEWLINE,
            ),
        decreases bytes@.len() - i,
    {
        let ghost pieces = segments::split(bytes@.take(i as int), NEWLINE);
        let ghost old_out = out@;
        assert(bytes@.take(i + 1).drop_last() =~= bytes@.take(i as int));
        assert(bytes@.take(i + 1).last() == bytes@[i as int]);
        if bytes[i] == NEWLINE {
            let piece = slice_subrange(bytes, start, i);
            out.push(piece);
            start = i + 1;
            assert(slices(out@) =~= slices(old_out).push(piece@));
            assert(bytes@.subrange(start as int, i + 1) =~= Seq::<u8>::empty());
        } else {
            assert(pieces.drop_last() =~= slices(out@));
            assert(pieces.last() == bytes@.subrange(start as int, i as int));
            assert(bytes@.subrange(start as int, i + 1) =~= pieces.last().push(bytes@[i as int]));
        }
        i += 1;
    }
    let ghost old_out = out@;
    let piece = slice_subrange(bytes, start, bytes.len());
    out.push(piece);
    assert(slices(out@) =~= slices(old_out).push(piece@));
    assert(bytes@.take(bytes@.len() as int) =~= bytes@);
    out
}

/// The lines of `bytes` without their newlines; a final newline starts no line.
pub fn split_lines(bytes: &[u8]) -> (out: Vec<&[u8]>)
    ensures
        slices(out@) == lines_of(bytes@),
{
    let mut out = split_at_newlines(bytes);
    proof {
        segments::lemma_split(bytes@, NEWLINE);
        assert(slices(out@).last() == out@.last()@);
    }
    if out[out.len() - 1].len() == 0 {
        let ghost all = out@;
        out.pop();
        assert(slices(out@) =~= slices(all).drop_last());
    }
    out
}

/// `line` without trailing blanks.
pub fn normalize(line: &[u8]) -> (out: &[u8])
    ensures
        out@ == trimmed(line@),
{
    let mut end: usize = line.len();
    assert(line@.take(end as int) =~= line@);
    while end > 0 && (line[end - 1] == 32 || line[end - 1] == 9 || line[end - 1] == 10 || line[end
        - 1] == 12 || line[end - 1] == 13)
        invariant
            end <= line@.len(),
            trimmed(line@) == trimmed(line@.take(end as int)),
        decreases end,
    {
        assert(line@.take(end as int).drop_last() =~= line@.take(end - 1));
        end -= 1;
    }
    slice_subrange(line, 0, end)
}

/// Whether one of the first 8192 bytes is zero.
pub fn is_binary(bytes: &[u8]) -> (binary: bool)
    ensures
        binary == looks_binary(bytes@),
{
    let mut i: usize = 0;
    while i < bytes.len() && i < BINARY_SNIFF_BYTES
        invariant
            i <= bytes@.len(),
            i <= BINARY_SNIFF_BYTES,
            forall|j: int| 0 <= j < i ==> bytes@[j] != 0,
        decreases bytes@.len() - i,
    {
        if bytes[i] == 0 {
            return true;
        }
        i += 1;
    }
    false
}

proof fn lemma_big_endian_bound(s: Seq<u8>)
    requires
        s.len() <= 8,
    ensures
        big_endian(s) < vstd::arithmetic::power::pow(256, s.len()),
    decreases s.len(),
{
    reveal(vstd::arithmetic::power::pow);
    if s.len() > 0 {
        lemma_big_endian_bound(s.drop_last());
    }
}

/// The leading 64 bits of a digest of at least eight bytes, and zero for a missing
/// one.
pub fn leading_u64(digest: &Option<Vec<u8>>) -> (head: u64)
    requires
        digest matches Some(d) ==> d@.len() >= 8,
    ensures
        head == digest_head(match digest {
            Some(d) => Some(d@),
            None => None,
        }),
{
    match digest {
        None => 0,
        Some(d) => {
            let mut value: u64 = 0;
            let mut i: usize = 0;
            while i < 8
                invariant
                    i <= 8,
                    d@.len() >= 8,
                    value == big_endian(d@.take(i as int)),
                decreases 8 - i,
            {
                proof {
                    let head = d@.take(i + 1);
                    assert(head.drop_last() =~= d@.take(i as int));
                    lemma_big_endian_bound(head);
                    lemma_pow256(head.len());
                }
                value = value * 256 + d[i] as u64;
                i += 1;
            }
            value
        },
    }
}

proof fn lemma_pow256(n: nat)
    requires
        n <= 8,
    ensures
        vstd::arithmetic::power::pow(256, n) <= 0x1_0000_0000_0000_0000,
{
    reveal(vstd::arithmetic::power::pow);
    reveal_with_fuel(vstd::arithmetic::power::pow, 10);
}

/// `parts` one after the other, with a newline between neighbours.
fn join_lines(parts: &[&[u8]]) -> (out: Vec<u8>)
    ensures
        out@ == segments::join(slices(parts@), seq![NEWLINE]),
{
    let mut out: Vec<u8> = Vec::new();
    let mut i: usize = 0;
    while i < parts.len()
        invariant
            i <= parts@.len(),
            out@ == segments::join(slices(parts@).take(i as int), seq![NEWLINE]),
        decreases parts@.len() - i,
    {
        let ghost head = slices(parts@).take(i + 1);
        assert(head.drop_last() =~= slices(parts@).take(i as int));
        assert(head.last() == parts@[i as int]@);
        if i > 0 {
            out.push(NEWLINE);
        }
        let part = parts[i];
        let mut j: usize = 0;
        let ghost prior = out@;
        while j < part.len()
            invariant
                j <= part@.len(),
                out@ == prior + part@.take(j as int),
            decreases part@.len() - j,
        {
            out.push(part[j]);
            j += 1;
            assert(out@ =~= prior + part@.take(j as int));
        }
        assert(part@.take(j as int) =~= part@);
        assert(out@ =~= segments::join(head, seq![NEWLINE]));
        i += 1;
    }
    assert(slices(parts@).take(i as int) =~= slices(parts@));
    out
}

/// The leading 64 bits of the SHA-1 of `parts` joined by newlines, without a git
/// object header. Zero parts hash the empty input.
pub fn hash64(parts: &[&[u8]]) -> (hash: u64)
    ensures
        hash == hash64_of(slices(parts@)),
{
    let joined = join_lines(parts);
    let digest = sha1(joined.as_slice());
    leading_u64(&digest)
}

/// The hash of a run of lines, blind to trailing blanks.
pub fn ctx_hash(lines: &[&[u8]]) -> (hash: u64)
    ensures
        hash == ctx_hash_of(slices(lines@)),
{
    let mut normalized: Vec<&[u8]> = Vec::new();
    let mut i: usize = 0;
    while i < lines.len()
        invariant
            i <= lines@.len(),
            normalized@.len() == i,
            forall|j: int| 0 <= j < i ==> (#[trigger] normalized@[j])@ == trimmed(lines@[j]@),
        decreases lines@.len() - i,
    {
        normalized.push(normalize(lines[i]));
        i += 1;
    }
    assert(slices(normalized@) =~= slices(lines@).map_values(|l: Seq<u8>| trimmed(l)));
    hash64(normalized.as_slice())
}

/// Line view of one file version: raw lines, per-line hashes, and the context
/// hashes for every possible span boundary `0..=n`.
pub struct FileIndex<'a> {
    pub lines: Vec<&'a [u8]>,
    pub line_hashes: Vec<u64>,
    pub ctx_before_at: Vec<u64>,
    pub ctx_after_at: Vec<u64>,
}

impl<'a> FileIndex<'a> {
    /// The lines of the file.
    pub open spec fn text(&self) -> Seq<Seq<u8>> {
        slices(self.lines@)
    }

    /// Every hash is the one of the lines it stands for.
    pub open spec fn wf(&self) -> bool {
        let lines = self.text();
        &&& self.line_hashes@.len() == lines.len()
        &&& self.ctx_before_at@.len() == lines.len() + 1
        &&& self.ctx_after_at@.len() == lines.len() + 1
        &&& forall|i: int|
            0 <= i < lines.len() ==> #[trigger] self.line_hashes@[i] == line_hash(lines[i])
        &&& forall|p: int|
            0 <= p <= lines.len() ==> #[trigger] self.ctx_before_at@[p] == before_hash(lines, p)
        &&& forall|p: int|
            0 <= p <= lines.len() ==> #[trigger] self.ctx_after_at@[p] == after_hash(lines, p)
    }

    /// Indexes the lines of `bytes`.
    pub fn build(bytes: &'a [u8]) -> (index: FileIndex<'a>)
        ensures
            index.wf(),
            index.text() == lines_of(bytes@),
    {
        let lines = split_lines(bytes);
        let n: usize = lines.len();
        let ghost text = slices(lines@);
        let mut line_hashes: Vec<u64> = Vec::new();
        let mut i: usize = 0;
        while i < n
            invariant
                i <= n,
                n == lines@.len(),
                text == slices(lines@),
                line_hashes@.len() == i,
                forall|j: int| 0 <= j < i ==> #[trigger] line_hashes@[j] == line_hash(text[j]),
            decreases n - i,
        {
            let one: [&[u8]; 1] = [normalize(lines[i])];
            assert(slices(one@) =~= seq![trimmed(text[i as int])]);
            line_hashes.push(hash64(one.as_slice()));
            i += 1;
        }
        let mut ctx_before_at: Vec<u64> = Vec::new();
        let mut ctx_after_at: Vec<u64> = Vec::new();
        let mut p: usize = 0;
        loop
            invariant_except_break
                ctx_before_at@.len() == p,
                ctx_after_at@.len() == p,
                forall|q: int| 0 <= q < p ==> #[trigger] ctx_before_at@[q] == before_hash(text, q),
                forall|q: int| 0 <= q < p ==> #[trigger] ctx_after_at@[q] == after_hash(text, q),
            invariant
                p <= n,
                n == lines@.len(),
                text == slices(lines@),
            ensures
                ctx_before_at@.len() == n + 1,
                ctx_after_at@.len() == n + 1,
                forall|q: int| 0 <= q <= n ==> #[trigger] ctx_before_at@[q] == before_hash(text, q),
                forall|q: int| 0 <= q <= n ==> #[trigger] ctx_after_at@[q] == after_hash(text, q),
            decreases n - p,
        {
            let from: usize = if p >= CTX_LINES {
                p - CTX_LINES
            } else {
                0
            };
            let to: usize = if n - p >= CTX_LINES {
                p + CTX_LINES
            } else {
                n
            };
            let above = slice_subrange(lines.as_slice(), from, p);
            let below = slice_subrange(lines.as_slice(), p, to);
            assert(slices(above@) =~= text.subrange(from as int, p as int));
            assert(slices(below@) =~= text.subrange(p as int, to as int));
            ctx_before_at.push(ctx_hash(above));
            ctx_after_at.push(ctx_hash(below));
            if p == n {
                break;
            }
            p += 1;
        }
        FileIndex { lines, line_hashes, ctx_before_at, ctx_after_at }
    }

    /// Number of lines.
    pub fn len(&self) -> (n: usize)
        ensures
            n == self.text().len(),
    {
        self.lines.len()
    }

    /// The stored form of the hashes of lines `a..b`.
    pub fn hex_hashes(&self, a: usize, b: usize) -> (out: Vec<String>)
        requires
            self.wf(),
            a <= b <= self.text().len(),
        ensures
            crate::model::texts(out@) == hash_texts(self.text().subrange(a as int, b as int)),
    {
        let mut out: Vec<String> = Vec::new();
        let mut i: usize = a;
        while i < b
            invariant
                self.wf(),
                a <= i <= b <= self.text().len(),
                out@.len() == i - a,
                forall|j: int|
                    0 <= j < i - a ==> (#[trigger] out@[j])@ == text::hex_digits(
                        line_hash(self.text()[a + j]) as nat,
                        16,
                    ),
            decreases b - i,
        {
            out.push(hex16(self.line_hashes[i]));
            i += 1;
        }
        assert(crate::model::texts(out@) =~= hash_texts(
            self.text().subrange(a as int, b as int),
        ));
        out
    }

    /// The text of lines `a..b`, joined by newlines.
    pub fn snippet(&self, a: usize, b: usize) -> (out: String)
        requires
            a <= b <= self.text().len(),
        ensures
            out@ == snippet_of(self.text().subrange(a as int, b as int)),
            all_utf8(self.text().subrange(a as int, b as int)) ==> out@ == decoded(
                self.text().subrange(a as int, b as int),
            ),
    {
        let ghost part = self.text().subrange(a as int, b as int);
        let ghost shown = part.map_values(|l: Seq<u8>| text_of(l));
        let mut out = String::new();
        let mut i: usize = a;
        while i < b
            invariant
                a <= i <= b <= self.text().len(),
                part == self.text().subrange(a as int, b as int),
                shown == part.map_values(|l: Seq<u8>| text_of(l)),
                out@ == segments::join(shown.take(i - a), seq!['\n']),
            decreases b - i,
        {
            let ghost head = shown.take(i + 1 - a);
            let ghost prior = out@;
            assert(head.drop_last() =~= shown.take(i - a));
            assert(head.last() == text_of(self.lines@[i as int]@));
            if i > a {
                out.push('\n');
            }
            let line = lossy(self.lines[i]);
            out.append(line.as_str());
            assert(out@ =~= segments::join(head, seq!['\n']));
            i += 1;
        }
        assert(shown.take(b - a) =~= shown);
        proof {
            if all_utf8(part) {
                lemma_snippet_is_exact(part);
            }
        }
        out
    }
}

/// What a line ends in besides blanks is all that its hash sees: blanks at the end come and
/// go without a trace.
pub proof fn lemma_trailing_blanks_ignored(line: Seq<u8>, blanks: Seq<u8>)
    requires
        forall|i: int| 0 <= i < blanks.len() ==> is_blank(#[trigger] blanks[i]),
    ensures
        trimmed(line + blanks) == trimmed(line),
        line_hash(line + blanks) == line_hash(line),
    decreases blanks.len(),
{
    if blanks.len() == 0 {
        assert(line + blanks =~= line);
    } else {
        let fewer = blanks.drop_last();
        assert forall|i: int| 0 <= i < fewer.len() implies is_blank(#[trigger] fewer[i]) by {
            assert(fewer[i] == blanks[i]);
        }
        lemma_trailing_blanks_ignored(line, fewer);
        assert((line + blanks).drop_last() =~= line + fewer);
        assert((line + blanks).last() == blanks[blanks.len() - 1]);
    }
}

/// The lines of a file, with newlines between them, and one behind the last if the file ends
/// in one, are the file.
pub proof fn lemma_lines_rejoin(bytes: Seq<u8>)
    ensures
        bytes.len() > 0 && bytes.last() == NEWLINE ==> segments::terminate(
            lines_of(bytes),
            NEWLINE,
        ) == bytes,
        !(bytes.len() > 0 && bytes.last() == NEWLINE) ==> segments::join(
            lines_of(bytes),
            seq![NEWLINE],
        ) == bytes,
        forall|i: int|
            0 <= i < lines_of(bytes).len() ==> !(#[trigger] lines_of(bytes)[i]).contains(NEWLINE),
{
    let pieces = segments::split(bytes, NEWLINE);
    segments::lemma_split(bytes, NEWLINE);
    assert forall|i: int| 0 <= i < lines_of(bytes).len() implies !(#[trigger] lines_of(
        bytes,
    )[i]).contains(NEWLINE) by {
        assert(lines_of(bytes)[i] == pieces[i]);
    }
    if bytes.len() == 0 {
        assert(pieces.drop_last().len() == 0);
        assert(segments::join(lines_of(bytes), seq![NEWLINE]) =~= bytes);
    } else if bytes.last() == NEWLINE {
        let init = bytes.drop_last();
        segments::lemma_split(init, NEWLINE);
        assert(pieces.drop_last() =~= segments::split(init, NEWLINE));
        segments::lemma_terminate_is_join(lines_of(bytes), NEWLINE);
        assert(init.push(NEWLINE) =~= bytes);
    }
}

/// A normalized line has lost its trailing spaces, tabs, form feeds, carriage returns and line
/// feeds, all of them and nothing else.
pub proof fn lemma_trimmed_line(line: Seq<u8>) -> (n: int)
    ensures
        0 <= n <= line.len(),
        trimmed(line) == line.take(n),
        forall|i: int|
            n <= i < line.len() ==> (#[trigger] line[i]) == 32 || line[i] == 9 || line[i] == 10
                || line[i] == 12 || line[i] == 13,
        n > 0 ==> line[n - 1] != 32 && line[n - 1] != 9 && line[n - 1] != 10 && line[n - 1] != 12
            && line[n - 1] != 13,
    decreases line.len(),
{
    if line.len() > 0 && is_blank(line.last()) {
        let init = line.drop_last();
        let n = lemma_trimmed_line(init);
        assert(init.take(n) =~= line.take(n));
        assert forall|i: int| n <= i < line.len() implies (#[trigger] line[i]) == 32 || line[i] == 9
            || line[i] == 10 || line[i] == 12 || line[i] == 13 by {
            if i < init.len() {
                assert(init[i] == line[i]);
            }
        }
        n
    } else {
        assert(line.take(line.len() as int) =~= line);
        line.len() as int
    }
}

/// What is hashed of a place in a file: a line without its trailing blanks, and of its
/// surroundings the up to three lines above and below, without theirs.
pub proof fn lemma_hashed_lines(lines: Seq<Seq<u8>>, line: Seq<u8>, p: int)
    requires
        0 <= p <= lines.len(),
    ensures
        ({
            let hash = |part: Seq<Seq<u8>>|
                digest_head(
                    sha1_digest(
                        segments::join(part.map_values(|l: Seq<u8>| trimmed(l)), seq![10u8]),
                    ),
                );
            let low = if p < 3 {
                0
            } else {
                p - 3
            };
            let high = if p + 3 > lines.len() {
                lines.len() as int
            } else {
                p + 3
            };
            &&& line_hash(line) == digest_head(sha1_digest(trimmed(line)))
            &&& before_hash(lines, p) == hash(lines.subrange(low, p))
            &&& after_hash(lines, p) == hash(lines.subrange(p, high))
        }),
{
    assert(segments::join(seq![trimmed(line)], seq![NEWLINE]) == trimmed(line));
}

/// The hash of a digest is the number that its first eight bytes are in big-endian order.
pub proof fn lemma_digest_head(d: Seq<u8>)
    requires
        d.len() >= 8,
    ensures
        digest_head(Some(d)) == d[0] * 0x100_0000_0000_0000 + d[1] * 0x1_0000_0000_0000 + d[2]
            * 0x100_0000_0000 + d[3] * 0x1_0000_0000 + d[4] * 0x100_0000 + d[5] * 0x1_0000 + d[6]
            * 0x100 + d[7],
        digest_head(None) == 0,
{
    reveal_with_fuel(big_endian, 9);
    let h = d.take(8);
    assert(h.drop_last() =~= d.take(7));
    assert(d.take(7).drop_last() =~= d.take(6));
    assert(d.take(6).drop_last() =~= d.take(5));
    assert(d.take(5).drop_last() =~= d.take(4));
    assert(d.take(4).drop_last() =~= d.take(3));
    assert(d.take(3).drop_last() =~= d.take(2));
    assert(d.take(2).drop_last() =~= d.take(1));
    assert(d.take(1).drop_last() =~= Seq::<u8>::empty());
    assert(big_endian(d.take(1).drop_last()) == 0);
    assert(big_endian(d.take(1)) == d[0]);
    assert(big_endian(d.take(2)) == d[0] * 256 + d[1]);
    assert(big_endian(d.take(3)) == (d[0] * 256 + d[1]) * 256 + d[2]);
    assert(big_endian(d.take(4)) == big_endian(d.take(3)) * 256 + d[3]);
    assert(big_endian(d.take(5)) == big_endian(d.take(4)) * 256 + d[4]);
    assert(big_endian(d.take(6)) == big_endian(d.take(5)) * 256 + d[5]);
    assert(big_endian(d.take(7)) == big_endian(d.take(6)) * 256 + d[6]);
    assert(big_endian(h) == big_endian(d.take(7)) * 256 + d[7]);
}

/// The lines of a file do not depend on whether its last line is ended, and a line that is added
/// to a file whose last line is ended comes behind the others.
pub proof fn lemma_added_line(bytes: Seq<u8>, line: Seq<u8>)
    requires
        bytes.len() == 0 || bytes.last() == 10,
        !line.contains(10u8),
        line.len() > 0,
    ensures
        lines_of(bytes + line) == lines_of(bytes).push(line),
        lines_of(bytes + line + seq![10u8]) == lines_of(bytes).push(line),
{
    segments::lemma_split(bytes, NEWLINE);
    segments::lemma_split_tail(bytes, NEWLINE, line);
    let pieces = segments::split(bytes, NEWLINE);
    assert(pieces.last() =~= Seq::<u8>::empty());
    assert(Seq::<u8>::empty() + line =~= line);
    assert(lines_of(bytes + line) =~= pieces.drop_last().push(line));
    let whole = bytes + line + seq![10u8];
    assert(whole.drop_last() =~= bytes + line);
    assert(lines_of(whole) =~= segments::split(bytes + line, NEWLINE));
}

/// A file is taken for binary if and only if one of its first 8192 bytes is zero.
pub proof fn lemma_binary_files(bytes: Seq<u8>, i: int)
    ensures
        0 <= i < bytes.len() && i < 8192 && bytes[i] == 0 ==> looks_binary(bytes),
        looks_binary(bytes) ==> exists|j: int|
            0 <= j < bytes.len() && j < 8192 && #[trigger] bytes[j] == 0,
{
}

} // verus!
