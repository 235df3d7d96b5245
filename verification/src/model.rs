//! The annotation record, its anchor, and the words for kinds and states.

use vstd::prelude::*;

use crate::clock;
use crate::clock::now_rfc3339;
pub use crate::id::Ulid;
use crate::text::same_text;

verus! {

broadcast use vstd::string::group_string_axioms;

/// Annotation category.
#[derive(Debug, Clone, Copy, PartialEq, Eq, Structural, Hash)]
pub enum Kind {
    Decision,
    Gotcha,
    Todo,
    History,
}

/// Annotation lifecycle state.
#[derive(Debug, Clone, Copy, PartialEq, Eq, Structural, Hash)]
pub enum Status {
    Live,
    Orphaned,
    Tombstone,
}

/// The word is none of `decision`, `gotcha`, `todo`, `history`.
#[derive(Debug, PartialEq, Eq)]
pub struct ParseKindError(pub String);

/// The word is none of `live`, `orphaned`, `tombstone`.
#[derive(Debug, PartialEq, Eq)]
pub struct ParseStatusError(pub String);

/// The word that stands for a kind.
pub open spec fn kind_word(kind: Kind) -> Seq<char> {
    match kind {
        Kind::Decision => "decision"@,
        Kind::Gotcha => "gotcha"@,
        Kind::Todo => "todo"@,
        Kind::History => "history"@,
    }
}

/// The word that stands for a state.
pub open spec fn status_word(status: Status) -> Seq<char> {
    match status {
        Status::Live => "live"@,
        Status::Orphaned => "orphaned"@,
        Status::Tombstone => "tombstone"@,
    }
}

/// The kind that `word` stands for.
pub open spec fn kind_of(word: Seq<char>) -> Option<Kind> {
    if word == "decision"@ {
        Some(Kind::Decision)
    } else if word == "gotcha"@ {
        Some(Kind::Gotcha)
    } else if word == "todo"@ {
        Some(Kind::Todo)
    } else if word == "history"@ {
        Some(Kind::History)
    } else {
        None
    }
}

/// The state that `word` stands for.
pub open spec fn status_of(word: Seq<char>) -> Option<Status> {
    if word == "live"@ {
        Some(Status::Live)
    } else if word == "orphaned"@ {
        Some(Status::Orphaned)
    } else if word == "tombstone"@ {
        Some(Status::Tombstone)
    } else {
        None
    }
}

/// The word of a kind stands for that kind and no other word does.
pub proof fn lemma_kind_roundtrip(kind: Kind, word: Seq<char>)
    ensures
        kind_of(word) == Some(kind) <==> word == kind_word(kind),
{
    reveal_strlit("decision");
    reveal_strlit("gotcha");
    reveal_strlit("todo");
    reveal_strlit("history");
    assert("decision"@.len() == 8);
    assert("gotcha"@.len() == 6);
    assert("todo"@.len() == 4);
    assert("history"@.len() == 7);
}

/// The word of a state stands for that state and no other word does.
pub proof fn lemma_status_roundtrip(status: Status, word: Seq<char>)
    ensures
        status_of(word) == Some(status) <==> word == status_word(status),
{
    reveal_strlit("live");
    reveal_strlit("orphaned");
    reveal_strlit("tombstone");
    assert("live"@.len() == 4);
    assert("orphaned"@.len() == 8);
    assert("tombstone"@.len() == 9);
}

impl Kind {
    /// Every kind, in the order of declaration.
    pub const ALL: [Kind; 4] = [Kind::Decision, Kind::Gotcha, Kind::Todo, Kind::History];

    /// The kind's word.
    pub fn as_str(self) -> (word: &'static str)
        ensures
            word@ == kind_word(self),
    {
        match self {
            Kind::Decision => "decision",
            Kind::Gotcha => "gotcha",
            Kind::Todo => "todo",
            Kind::History => "history",
        }
    }

    /// The kind's word as an owned string.
    pub fn to_string(&self) -> (word: String)
        ensures
            word@ == kind_word(*self),
    {
        self.as_str().to_owned()
    }

    /// The kind that `s` is the word of; any other text comes back in the error.
    pub fn from_str(s: &str) -> (kind: Result<Kind, ParseKindError>)
        ensures
            match kind {
                Ok(k) => kind_of(s@) == Some(k),
                Err(e) => kind_of(s@) is None && e.0@ == s@,
            },
    {
        if same_text(s, "decision") {
            Ok(Kind::Decision)
        } else if same_text(s, "gotcha") {
            Ok(Kind::Gotcha)
        } else if same_text(s, "todo") {
            Ok(Kind::Todo)
        } else if same_text(s, "history") {
            Ok(Kind::History)
        } else {
            Err(ParseKindError(s.to_owned()))
        }
    }
}

impl std::str::FromStr for Kind {
    type Err = ParseKindError;

    fn from_str(s: &str) -> (kind: Result<Kind, ParseKindError>)
        ensures
            match kind {
                Ok(k) => kind_of(s@) == Some(k),
                Err(e) => kind_of(s@) is None && e.0@ == s@,
            },
    {
        Kind::from_str(s)
    }
}

impl Status {
    /// The state's word.
    pub fn as_str(self) -> (word: &'static str)
        ensures
            word@ == status_word(self),
    {
        match self {
            Status::Live => "live",
            Status::Orphaned => "orphaned",
            Status::Tombstone => "tombstone",
        }
    }

    /// The state's word as an owned string.
    pub fn to_string(&self) -> (word: String)
        ensures
            word@ == status_word(*self),
    {
        self.as_str().to_owned()
    }

    /// The state that `s` is the word of; any other text comes back in the error.
    pub fn from_str(s: &str) -> (status: Result<Status, ParseStatusError>)
        ensures
            match status {
                Ok(k) => status_of(s@) == Some(k),
                Err(e) => status_of(s@) is None && e.0@ == s@,
            },
    {
        if same_text(s, "live") {
            Ok(Status::Live)
        } else if same_text(s, "orphaned") {
            Ok(Status::Orphaned)
        } else if same_text(s, "tombstone") {
            Ok(Status::Tombstone)
        } else {
            Err(ParseStatusError(s.to_owned()))
        }
    }
}

impl std::str::FromStr for Status {
    type Err = ParseStatusError;

    fn from_str(s: &str) -> (status: Result<Status, ParseStatusError>)
        ensures
            match status {
                Ok(k) => status_of(s@) == Some(k),
                Err(e) => status_of(s@) is None && e.0@ == s@,
            },
    {
        Status::from_str(s)
    }
}

/// The anchored code location an annotation is attached to.
#[derive(Debug, PartialEq, Eq)]
pub struct Anchor {
    pub base_blob: String,
    pub start: u32,
    pub end: u32,
    pub line_hashes: Vec<String>,
    pub ctx_before: String,
    pub ctx_after: String,
    pub symbol: Option<String>,
}

/// What an anchor holds.
#[verifier::ext_equal]
pub struct AnchorView {
    pub base_blob: Seq<char>,
    pub start: u32,
    pub end: u32,
    pub line_hashes: Seq<Seq<char>>,
    pub ctx_before: Seq<char>,
    pub ctx_after: Seq<char>,
    pub symbol: Option<Seq<char>>,
}

/// A single annotation.
#[derive(Debug, PartialEq, Eq)]
pub struct Record {
    pub id: Ulid,
    pub kind: Kind,
    pub body: String,
    pub anchor: Anchor,
    pub status: Status,
    pub orig_snippet: Option<String>,
    pub created_at: String,
    pub updated_at: String,
}

/// What a record holds.
#[verifier::ext_equal]
pub struct RecordView {
    pub id: Ulid,
    pub kind: Kind,
    pub body: Seq<char>,
    pub anchor: AnchorView,
    pub status: Status,
    pub orig_snippet: Option<Seq<char>>,
    pub created_at: Seq<char>,
    pub updated_at: Seq<char>,
}

/// The characters of each string.
pub open spec fn texts(v: Seq<String>) -> Seq<Seq<char>> {
    v.map_values(|s: String| s@)
}

/// The characters of a string that may be absent.
pub open spec fn opt_text(s: Option<String>) -> Option<Seq<char>> {
    match s {
        Some(t) => Some(t@),
        None => None,
    }
}

impl View for Anchor {
    type V = AnchorView;

    open spec fn view(&self) -> AnchorView {
        AnchorView {
            base_blob: self.base_blob@,
            start: self.start,
            end: self.end,
            line_hashes: texts(self.line_hashes@),
            ctx_before: self.ctx_before@,
            ctx_after: self.ctx_after@,
            symbol: opt_text(self.symbol),
        }
    }
}

impl View for Record {
    type V = RecordView;

    open spec fn view(&self) -> RecordView {
        RecordView {
            id: self.id,
            kind: self.kind,
            body: self.body@,
            anchor: self.anchor@,
            status: self.status,
            orig_snippet: opt_text(self.orig_snippet),
            created_at: self.created_at@,
            updated_at: self.updated_at@,
        }
    }
}

/// What each record of a log holds.
pub open spec fn record_views(records: Seq<Record>) -> Seq<RecordView> {
    records.map_values(|r: Record| r@)
}

/// A copy of each string.
pub fn clone_texts(v: &Vec<String>) -> (out: Vec<String>)
    ensures
        texts(out@) == texts(v@),
{
    let mut out: Vec<String> = Vec::new();
    let mut i: usize = 0;
    while i < v.len()
        invariant
            i <= v@.len(),
            out@.len() == i,
            forall|j: int| 0 <= j < i ==> (#[trigger] out@[j])@ == v@[j]@,
        decreases v@.len() - i,
    {
        out.push(v[i].clone());
        i += 1;
    }
    assert(texts(out@) =~= texts(v@));
    out
}

/// A copy of a string that may be absent.
pub fn clone_opt_text(s: &Option<String>) -> (out: Option<String>)
    ensures
        opt_text(out) == opt_text(*s),
{
    match s {
        Some(t) => Some(t.clone()),
        None => None,
    }
}

impl Clone for Anchor {
    fn clone(&self) -> (out: Anchor)
        ensures
            out@ == self@,
    {
        Anchor {
            base_blob: self.base_blob.clone(),
            start: self.start,
            end: self.end,
            line_hashes: clone_texts(&self.line_hashes),
            ctx_before: self.ctx_before.clone(),
            ctx_after: self.ctx_after.clone(),
            symbol: clone_opt_text(&self.symbol),
        }
    }
}

impl Clone for Record {
    fn clone(&self) -> (out: Record)
        ensures
            out@ == self@,
    {
        Record {
            id: self.id,
            kind: self.kind,
            body: self.body.clone(),
            anchor: self.anchor.clone(),
            status: self.status,
            orig_snippet: clone_opt_text(&self.orig_snippet),
            created_at: self.created_at.clone(),
            updated_at: self.updated_at.clone(),
        }
    }
}

impl Anchor {
    /// Number of anchored lines: `end - start + 1`.
    pub fn line_count(&self) -> (n: u32)
        requires
            self.start <= self.end,
            self.end - self.start < u32::MAX,
        ensures
            n == self.end - self.start + 1,
    {
        self.end - self.start + 1
    }
}

impl Record {
    /// New live record: fresh id, `orig_snippet = None`, `created_at == updated_at == now`.
    pub fn new(kind: Kind, body: String, anchor: Anchor) -> (record: Record)
        ensures
            record.kind == kind,
            record.body == body,
            record.anchor == anchor,
            record.status == Status::Live,
            record.orig_snippet is None,
            record.created_at@ == record.updated_at@,
            clock::is_timestamp(record.created_at@),
    {
        let now = now_rfc3339();
        Record {
            id: Ulid::generate(),
            kind,
            body,
            anchor,
            status: Status::Live,
            orig_snippet: None,
            created_at: now.clone(),
            updated_at: now,
        }
    }

    /// Sets `updated_at` to now.
    pub fn touch(&mut self)
        ensures
            final(self)@ == (RecordView { updated_at: final(self).updated_at@, ..old(self)@ }),
            clock::is_timestamp(final(self).updated_at@),
    {
        self.updated_at = now_rfc3339();
    }

    /// Marks the record orphaned and touches `updated_at`.
    pub fn orphan(&mut self)
        ensures
            final(self)@ == (RecordView {
                status: Status::Orphaned,
                updated_at: final(self).updated_at@,
                ..old(self)@
            }),
            clock::is_timestamp(final(self).updated_at@),
    {
        self.status = Status::Orphaned;
        self.touch();
    }

    /// Marks the record tombstoned and touches `updated_at`.
    pub fn mark_tombstone(&mut self)
        ensures
            final(self)@ == (RecordView {
                status: Status::Tombstone,
                updated_at: final(self).updated_at@,
                ..old(self)@
            }),
            clock::is_timestamp(final(self).updated_at@),
    {
        self.status = Status::Tombstone;
        self.touch();
    }
}

/// The words of the kinds and states.
pub proof fn lemma_words()
    ensures
        kind_word(Kind::Decision) == "decision"@,
        kind_word(Kind::Gotcha) == "gotcha"@,
        kind_word(Kind::Todo) == "todo"@,
        kind_word(Kind::History) == "history"@,
        status_word(Status::Live) == "live"@,
        status_word(Status::Orphaned) == "orphaned"@,
        status_word(Status::Tombstone) == "tombstone"@,
{
}

} // verus!
