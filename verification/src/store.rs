//! Where the log of each source file is kept: a mirror of the source tree under
//! `.annot/`; and what is read from it.

use vstd::prelude::*;

use crate::fold;
use crate::fold::{find_in_log, fold_last_wins};
use crate::log;
use crate::log::{collect_records, log_text, LogLine};
use crate::model;
use crate::model::{Record, RecordView, Ulid};
use crate::order;
use crate::path;
use crate::path::{clone_bytes, normalize_lexically, Component, Part, TreePath};
use crate::segments;

verus! {

broadcast use vstd::string::group_string_axioms;

/// Directory holding all annotation mirrors, relative to the repo root.
pub const ANNOT_DIR: &'static str = ".annot";

/// Advisory lock file name, relative to [`ANNOT_DIR`].
pub const LOCK_FILE: &'static str = ".lock";

/// Errors from [`Store`] operations.
#[derive(Debug)]
pub enum StoreError {
    /// The path lies outside the repository.
    OutsideRepo { path: TreePath, root: TreePath },
    /// The path lies inside the directory of the annotations.
    ReservedPath { path: TreePath },
    /// A line of a log is no record.
    MalformedLine { path: TreePath, line: usize },
    /// Another process holds the lock.
    LockBusy,
    /// Reading or writing failed, for the reason given.
    Io { path: TreePath, reason: String },
}

/// The name of the directory of the annotations.
pub open spec fn annot_name() -> Seq<u8> {
    seq![46u8, 97, 110, 110, 111, 116]
}

/// The name of the lock file.
pub open spec fn lock_name() -> Seq<u8> {
    seq![46u8, 108, 111, 99, 107]
}

/// What a mirror's name has behind the name of its source file: `.jsonl`.
pub open spec fn mirror_suffix() -> Seq<u8> {
    seq![46u8, 106, 115, 111, 110, 108]
}

/// The names are those of the constants.
pub proof fn lemma_names()
    ensures
        vstd::utf8::encode_utf8(ANNOT_DIR@) == annot_name(),
        vstd::utf8::encode_utf8(LOCK_FILE@) == lock_name(),
{
    reveal_strlit(".annot");
    reveal_strlit(".lock");
    assert(vstd::utf8::is_ascii_chars(".annot"@));
    assert(vstd::utf8::is_ascii_chars(".lock"@));
    vstd::utf8::is_ascii_chars_encode_utf8(".annot"@);
    vstd::utf8::is_ascii_chars_encode_utf8(".lock"@);
    assert(vstd::utf8::encode_utf8(".annot"@) =~= annot_name());
    assert(vstd::utf8::encode_utf8(".lock"@) =~= lock_name());
}

/// Why a path names no source file of the repository.
pub enum Refusal {
    Outside(Seq<Part>),
    Reserved(Seq<Part>),
}

/// The path of `source`, seen from `cwd`, relative to the repository root `root`.
pub open spec fn source_rel_of(root: Seq<Part>, source: Seq<Part>, cwd: Seq<Part>) -> Result<
    Seq<Part>,
    Refusal,
> {
    let normalized = path::normal_form(path::joined(cwd, source));
    match path::behind(normalized, root) {
        None => Err(Refusal::Outside(normalized)),
        Some(rel) => if rel.len() > 0 && rel[0] == Part::Normal(annot_name()) {
            Err(Refusal::Reserved(rel))
        } else {
            Ok(rel)
        },
    }
}

/// The name of the file that a path ends in, and nothing if it ends in none.
pub open spec fn file_name(parts: Seq<Part>) -> Seq<u8> {
    if parts.len() > 0 {
        match parts.last() {
            Part::Normal(name) => name,
            _ => seq![],
        }
    } else {
        seq![]
    }
}

/// The path of the directory that a path lies in; the empty path for the empty one.
pub open spec fn directory(parts: Seq<Part>) -> Seq<Part> {
    if parts.len() > 0 {
        parts.drop_last()
    } else {
        parts
    }
}

/// Where the log of the source file `rel` lies.
pub open spec fn mirror_of(root: Seq<Part>, rel: Seq<Part>) -> Seq<Part> {
    (root.push(Part::Normal(annot_name())) + directory(rel)).push(
        Part::Normal(file_name(rel) + mirror_suffix()),
    )
}

/// The place of the last dot in a name, where it parts a stem from an extension: behind
/// the first character. The name `..` has none.
pub open spec fn last_dot(name: Seq<u8>, n: int) -> Option<int>
    decreases n,
{
    if n <= 1 || name == seq![path::DOT, path::DOT] {
        None
    } else if name[n - 1] == path::DOT {
        Some(n - 1)
    } else {
        last_dot(name, n - 1)
    }
}

/// The name without its extension.
pub open spec fn stem(name: Seq<u8>) -> Seq<u8> {
    match last_dot(name, name.len() as int) {
        Some(dot) => name.take(dot),
        None => name,
    }
}

/// Whether a file of this name holds a log: whether its extension is `jsonl`.
pub open spec fn is_mirror(name: Seq<u8>) -> bool {
    last_dot(name, name.len() as int) matches Some(dot) && name.skip(dot) == mirror_suffix()
}

/// `dir` with a last component of the given name.
pub open spec fn with_name(dir: Seq<Part>, name: Seq<u8>) -> Seq<Part> {
    if name == seq![path::DOT, path::DOT] {
        dir.push(Part::Parent)
    } else if name == seq![path::DOT] {
        if dir.len() == 0 {
            dir.push(Part::Cur)
        } else {
            dir
        }
    } else {
        dir.push(Part::Normal(name))
    }
}

/// The source file whose log lies at `mirror`, if that lies under `.annot/` at all.
pub open spec fn source_of(root: Seq<Part>, mirror: Seq<Part>) -> Option<Seq<Part>> {
    match path::behind(mirror, root.push(Part::Normal(annot_name()))) {
        None => None,
        Some(rel) => if rel.len() > 0 && rel.last() is Normal {
            Some(with_name(rel.drop_last(), stem(file_name(rel))))
        } else {
            None
        },
    }
}

proof fn lemma_dot_before_suffix(name: Seq<u8>, n: int)
    requires
        name.len() + 1 <= n <= name.len() + 6,
        name.len() > 0,
    ensures
        last_dot(name + mirror_suffix(), n) == Some(name.len() as int),
    decreases n,
{
    let full = name + mirror_suffix();
    assert(full.len() == name.len() + 6);
    assert(full != seq![path::DOT, path::DOT]) by {
        assert(seq![path::DOT, path::DOT].len() == 2);
    }
    assert(full[n - 1] == mirror_suffix()[n - 1 - name.len()]);
    if n > name.len() + 1 {
        lemma_dot_before_suffix(name, n - 1);
    }
}

/// The mirror of a source file leads back to it, and is taken for a log.
pub proof fn lemma_mirror_roundtrip(root: Seq<Part>, rel: Seq<Part>)
    requires
        path::is_path(rel),
        rel.len() > 0,
        rel.last() is Normal,
    ensures
        source_of(root, mirror_of(root, rel)) == Some(rel),
        is_mirror(file_name(mirror_of(root, rel))),
{
    let name = file_name(rel);
    let mirror = mirror_of(root, rel);
    let base = root.push(Part::Normal(annot_name()));
    assert(path::is_name(name)) by {
        assert(rel[rel.len() - 1] is Normal);
    }
    let full = name + mirror_suffix();
    lemma_dot_before_suffix(name, full.len() as int);
    assert(full.take(name.len() as int) =~= name);
    assert(full.skip(name.len() as int) =~= mirror_suffix());
    assert(mirror.subrange(0, base.len() as int) =~= base);
    let tail = mirror.skip(base.len() as int);
    assert(tail =~= rel.drop_last().push(Part::Normal(full)));
    assert(tail.drop_last() =~= rel.drop_last());
    assert(rel.drop_last().push(rel.last()) =~= rel);
}

/// No two source files share a mirror.
pub proof fn lemma_mirrors_differ(root: Seq<Part>, a: Seq<Part>, b: Seq<Part>)
    requires
        path::is_path(a),
        a.len() > 0,
        a.last() is Normal,
        path::is_path(b),
        b.len() > 0,
        b.last() is Normal,
        mirror_of(root, a) == mirror_of(root, b),
    ensures
        a == b,
{
    lemma_mirror_roundtrip(root, a);
    lemma_mirror_roundtrip(root, b);
}

/// A path that is accepted for a source file lies under the root, outside `.annot/`, and
/// has nothing left to resolve against the root.
pub proof fn lemma_accepted_path_stays_inside(
    root: Seq<Part>,
    source: Seq<Part>,
    cwd: Seq<Part>,
)
    ensures
        source_rel_of(root, source, cwd) matches Ok(rel) ==> {
            &&& root + rel == path::normal_form(path::joined(cwd, source))
            &&& path::is_normal(root + rel)
            &&& !(rel.len() > 0 && rel[0] == Part::Normal(annot_name()))
        },
{
    let normalized = path::normal_form(path::joined(cwd, source));
    path::lemma_normal_form(path::joined(cwd, source));
    if root.is_prefix_of(normalized) {
        assert(root + normalized.skip(root.len() as int) =~= normalized);
    }
}

/// A path that was accepted is accepted again, as the same path, when it is given in full,
/// whatever the current directory is then.
pub proof fn lemma_accepted_path_is_stable(
    root: Seq<Part>,
    source: Seq<Part>,
    cwd: Seq<Part>,
    later_cwd: Seq<Part>,
)
    requires
        path::is_absolute(root),
    ensures
        source_rel_of(root, source, cwd) matches Ok(rel) ==> source_rel_of(
            root,
            root + rel,
            later_cwd,
        ) == Ok::<Seq<Part>, Refusal>(rel),
{
    lemma_accepted_path_stays_inside(root, source, cwd);
    if let Ok(rel) = source_rel_of(root, source, cwd) {
        let whole = root + rel;
        assert(whole[0] == root[0]);
        path::lemma_normal_fixed(whole);
        assert(whole.subrange(0, root.len() as int) =~= root);
        assert(whole.skip(root.len() as int) =~= rel);
    }
}

fn annot_component() -> (out: Component)
    ensures
        out@ == Part::Normal(annot_name()),
{
    let name: Vec<u8> = vec![46u8, 97, 110, 110, 111, 116];
    assert(name@ =~= annot_name());
    Component::Normal(name)
}

/// A JSONL annotation store rooted at a git repository's working directory.
#[derive(Debug)]
pub struct Store {
    repo_root: TreePath,
    annot_root: TreePath,
}

impl Store {
    /// The repository's working directory.
    pub closed spec fn root(&self) -> Seq<Part> {
        self.repo_root@
    }

    /// The directory of the annotations lies in the repository's working directory.
    #[verifier::type_invariant]
    spec fn wf(&self) -> bool {
        self.annot_root@ == self.repo_root@.push(Part::Normal(annot_name()))
    }

    /// Opens a store trusting `repo_root` directly.
    pub fn open(repo_root: TreePath) -> (store: Store)
        ensures
            store.root() == repo_root@,
    {
        let mut annot_root = repo_root.clone();
        annot_root.push(annot_component());
        Store { repo_root, annot_root }
    }

    /// The repository's working directory.
    pub fn repo_root(&self) -> (root: &TreePath)
        ensures
            root@ == self.root(),
    {
        &self.repo_root
    }

    /// `<repo_root>/.annot`.
    pub fn annot_root(&self) -> (root: &TreePath)
        ensures
            root@ == self.root().push(Part::Normal(annot_name())),
    {
        proof {
            use_type_invariant(self);
        }
        &self.annot_root
    }

    /// Maps `source` to a repo-relative, lexically normalized path. Relative inputs are
    /// resolved against `cwd`. `Err(OutsideRepo)` if the result escapes the root;
    /// `Err(ReservedPath)` if it points inside `.annot/`.
    pub fn source_rel(&self, source: &TreePath, cwd: &TreePath) -> (rel: Result<
        TreePath,
        StoreError,
    >)
        ensures
            match rel {
                Ok(r) => source_rel_of(self.root(), source@, cwd@) == Ok::<Seq<Part>, Refusal>(r@),
                Err(StoreError::OutsideRepo { path, root }) => source_rel_of(
                    self.root(),
                    source@,
                    cwd@,
                ) == Err::<Seq<Part>, Refusal>(Refusal::Outside(path@)) && root@ == self.root(),
                Err(StoreError::ReservedPath { path }) => source_rel_of(
                    self.root(),
                    source@,
                    cwd@,
                ) == Err::<Seq<Part>, Refusal>(Refusal::Reserved(path@)),
                Err(_) => false,
            },
    {
        let absolute = cwd.join(source);
        let normalized = normalize_lexically(&absolute);
        match normalized.strip_prefix(&self.repo_root) {
            None => Err(
                StoreError::OutsideRepo { path: normalized, root: self.repo_root.clone() },
            ),
            Some(rel) => {
                if rel.components.len() > 0 && rel.components[0].same(&annot_component()) {
                    assert(rel@[0] == rel.components@[0]@);
                    Err(StoreError::ReservedPath { path: rel })
                } else {
                    assert(rel@.len() > 0 ==> rel@[0] == rel.components@[0]@);
                    Ok(rel)
                }
            },
        }
    }

    /// Mirror path for `source`: `<repo_root>/.annot/<source_rel>` with `.jsonl` appended to
    /// the file name.
    pub fn annot_path(&self, source: &TreePath, cwd: &TreePath) -> (mirror: Result<
        TreePath,
        StoreError,
    >)
        ensures
            match (mirror, source_rel_of(self.root(), source@, cwd@)) {
                (Ok(m), Ok(rel)) => m@ == mirror_of(self.root(), rel),
                (Err(StoreError::OutsideRepo { path, root }), Err(Refusal::Outside(p))) => path@
                    == p && root@ == self.root(),
                (Err(StoreError::ReservedPath { path }), Err(Refusal::Reserved(p))) => path@ == p,
                _ => false,
            },
    {
        match self.source_rel(source, cwd) {
            Ok(rel) => Ok(self.mirror_path_for_rel(&rel)),
            Err(e) => Err(e),
        }
    }

    /// Where the log of the source file `rel` lies.
    pub fn mirror_path_for_rel(&self, rel: &TreePath) -> (mirror: TreePath)
        ensures
            mirror@ == mirror_of(self.root(), rel@),
    {
        proof {
            use_type_invariant(self);
        }
        let n: usize = rel.components.len();
        let mut name: Vec<u8> = Vec::new();
        if n > 0 {
            assert(rel@.last() == rel.components@[n - 1]@);
            match &rel.components[n - 1] {
                Component::Normal(own) => {
                    name = clone_bytes(own);
                },
                _ => {},
            }
        }
        assert(name@ =~= file_name(rel@));
        let suffix: [u8; 6] = [46u8, 106, 115, 111, 110, 108];
        let mut i: usize = 0;
        while i < 6
            invariant
                i <= 6,
                suffix@ == mirror_suffix(),
                name@ == file_name(rel@) + mirror_suffix().take(i as int),
            decreases 6 - i,
        {
            name.push(suffix[i]);
            i += 1;
            assert(name@ =~= file_name(rel@) + mirror_suffix().take(i as int));
        }
        assert(mirror_suffix().take(6) =~= mirror_suffix());
        let mut mirror = self.annot_root.clone();
        let mut j: usize = 0;
        let stop: usize = if n > 0 {
            n - 1
        } else {
            0
        };
        assert(mirror@ =~= self.annot_root@ + rel@.take(0));
        while j < stop
            invariant
                j <= stop <= rel.components@.len(),
                mirror@ == self.annot_root@ + rel@.take(j as int),
            decreases stop - j,
        {
            let ghost before = mirror@;
            mirror.push(rel.components[j].clone());
            j += 1;
            assert(mirror@ =~= self.annot_root@ + rel@.take(j as int));
        }
        assert(rel@.take(stop as int) =~= directory(rel@));
        mirror.push(Component::Normal(name));
        mirror
    }

    /// The source file whose log lies at `mirror`; `None` for a path outside `.annot/`.
    pub fn source_rel_from_mirror(&self, mirror: &TreePath) -> (source: Option<TreePath>)
        ensures
            match source {
                Some(s) => source_of(self.root(), mirror@) == Some(s@),
                None => source_of(self.root(), mirror@) is None,
            },
    {
        proof {
            use_type_invariant(self);
        }
        match mirror.strip_prefix(&self.annot_root) {
            None => None,
            Some(rel) => {
                let mut rel = rel;
                let ghost parts = rel@;
                let n: usize = rel.components.len();
                if n == 0 {
                    return None;
                }
                assert(parts.last() == rel.components@[n - 1]@);
                match rel.components.pop() {
                    Some(Component::Normal(name)) => {
                        assert(rel@ =~= parts.drop_last());
                        let own = stem_of(&name);
                        push_name(&mut rel, own);
                        Some(rel)
                    },
                    _ => None,
                }
            },
        }
    }

    /// Sorted repo-relative source paths of the given mirror files.
    pub fn list_annotated_files(&self, mirrors: &Vec<TreePath>) -> (files: Vec<TreePath>)
        ensures
            path::path_views(files@) == order::stable_sort(
                sources_of(self.root(), path::path_views(mirrors@)),
                |a: Seq<Part>, b: Seq<Part>| path::path_less(a, b),
            ),
    {
        let ghost views = path::path_views(mirrors@);
        let mut out: Vec<TreePath> = Vec::new();
        let mut i: usize = 0;
        assert(path::path_views(out@) =~= sources_of(self.root(), views.take(0)));
        while i < mirrors.len()
            invariant
                i <= mirrors@.len(),
                views == path::path_views(mirrors@),
                path::path_views(out@) == sources_of(self.root(), views.take(i as int)),
            decreases mirrors@.len() - i,
        {
            let ghost before = path::path_views(out@);
            assert(views.take(i + 1).drop_last() =~= views.take(i as int));
            assert(views.take(i + 1).last() == mirrors@[i as int]@);
            match self.source_rel_from_mirror(&mirrors[i]) {
                Some(source) => {
                    out.push(source);
                    assert(path::path_views(out@) =~= before.push(source@));
                },
                None => {},
            }
            i += 1;
        }
        assert(views.take(i as int) =~= views);
        let ghost unsorted = out@;
        let files = order::sort(out);
        proof {
            order::lemma_sort_map(
                unsorted,
                order::by_rank::<TreePath>(),
                |p: TreePath| p@,
                |a: Seq<Part>, b: Seq<Part>| path::path_less(a, b),
            );
        }
        files
    }

    /// `<repo_root>/.annot/.lock`.
    pub fn lock_path(&self) -> (lock: TreePath)
        ensures
            lock@ == self.root().push(Part::Normal(annot_name())).push(Part::Normal(lock_name())),
    {
        proof {
            use_type_invariant(self);
        }
        let mut lock = self.annot_root.clone();
        let name: Vec<u8> = vec![46u8, 108, 111, 99, 107];
        assert(name@ =~= lock_name());
        lock.push(Component::Normal(name));
        lock
    }
}

impl Store {
    /// The records of the log at `mirror`, duplicates and tombstones included, given its
    /// lines and what each of them was read as. A torn line that is no record is skipped;
    /// any other is `Err(MalformedLine)`.
    pub fn read_raw(&self, mirror: &TreePath, lines: &Vec<LogLine>, read: Vec<Option<Record>>) -> (raw: Result<Vec<Record>, StoreError>)
        requires
            lines@.len() == read@.len(),
        ensures
            match (raw, log::collected(log::line_views(lines@), log::read_views(read@))) {
                (Ok(records), Ok(views)) => model::record_views(records@) == views,
                (Err(StoreError::MalformedLine { path, line }), Err(number)) => path@ == mirror@
                    && line == number,
                _ => false,
            },
    {
        match collect_records(lines, read) {
            Ok(records) => Ok(records),
            Err(line) => Err(StoreError::MalformedLine { path: mirror.clone(), line }),
        }
    }

    /// Compacted view of a log: last record per id wins, ids whose winner is a tombstone are
    /// removed, orphaned records are kept, result sorted by id ascending.
    pub fn load(&self, raw: Vec<Record>) -> (records: Vec<Record>)
        ensures
            fold::is_folded(model::record_views(raw@), model::record_views(records@)),
    {
        fold_last_wins(raw)
    }

    /// Scans the logs of the given source files, each as it was read, for `id`, up to the
    /// first one that holds it or was not readable. Returns the source path and the winning
    /// record.
    pub fn find(&self, logs: Vec<(TreePath, Result<Vec<Record>, StoreError>)>, id: Ulid) -> (found:
        Result<Option<(TreePath, Record)>, StoreError>)
        ensures
            match found {
                Ok(None) => forall|i: int|
                    0 <= i < logs@.len() ==> !ends_search(#[trigger] logs@[i].1, id),
                Ok(Some((rel, record))) => exists|i: int| #[trigger]
                    is_search_end(logs@, id, i) && logs@[i].0@ == rel@ && (logs@[i].1 matches Ok(
                        raw,
                    ) && survivors_of(raw@)[id] == record@),
                Err(e) => exists|i: int| #[trigger]
                    is_search_end(logs@, id, i) && logs@[i].1 == Err::<Vec<Record>, StoreError>(e),
            },
    {
        let ghost all = logs@;
        for log in it: logs
            invariant
                it.seq() == all,
                forall|i: int| 0 <= i < it.index() ==> !ends_search(#[trigger] all[i].1, id),
        {
            let ghost at = it.index() as int;
            assert(log == all[at]);
            let (rel, read) = log;
            match read {
                Ok(raw) => {
                    if let Some(record) = find_in_log(&raw, id) {
                        assert(is_search_end(all, id, at));
                        return Ok(Some((rel, record)));
                    }
                },
                Err(e) => {
                    assert(is_search_end(all, id, at));
                    return Err(e);
                },
            }
        }
        Ok(None)
    }

    /// What is appended to a log for one record, written as one line.
    pub fn append(&self, line: String) -> (text: String)
        ensures
            text@ == line@.push('\n'),
    {
        let mut text = line;
        text.push('\n');
        text
    }

    /// What is appended to a log for the given records, each written as one line.
    pub fn append_all(&self, lines: &Vec<String>) -> (text: String)
        ensures
            text@ == segments::terminate(model::texts(lines@), '\n'),
    {
        log_text(lines)
    }
}

/// What a log adds up to.
pub open spec fn survivors_of(raw: Seq<Record>) -> Map<Ulid, RecordView> {
    fold::living(fold::latest(model::record_views(raw)))
}

/// Whether a search for `id` ends at a log: it holds the id, or it was not readable.
pub open spec fn ends_search(log: Result<Vec<Record>, StoreError>, id: Ulid) -> bool {
    match log {
        Ok(raw) => survivors_of(raw@).contains_key(id),
        Err(_) => true,
    }
}

/// Whether the log at `i` is the first one at which a search for `id` ends.
pub open spec fn is_search_end(
    logs: Seq<(TreePath, Result<Vec<Record>, StoreError>)>,
    id: Ulid,
    i: int,
) -> bool {
    &&& 0 <= i < logs.len()
    &&& ends_search(logs[i].1, id)
    &&& forall|j: int| 0 <= j < i ==> !ends_search(#[trigger] logs[j].1, id)
}

/// The source files of the given mirrors, in their order.
pub open spec fn sources_of(root: Seq<Part>, mirrors: Seq<Seq<Part>>) -> Seq<Seq<Part>>
    decreases mirrors.len(),
{
    if mirrors.len() == 0 {
        seq![]
    } else {
        let rest = sources_of(root, mirrors.drop_last());
        match source_of(root, mirrors.last()) {
            Some(source) => rest.push(source),
            None => rest,
        }
    }
}

/// The mirrors of source files lead back to exactly these files, in their order.
pub proof fn lemma_mirrored_files_listed(root: Seq<Part>, files: Seq<Seq<Part>>)
    requires
        forall|i: int|
            0 <= i < files.len() ==> path::is_path(#[trigger] files[i]) && files[i].len() > 0
                && files[i].last() is Normal,
    ensures
        sources_of(root, files.map_values(|f: Seq<Part>| mirror_of(root, f))) == files,
    decreases files.len(),
{
    let mirrors = files.map_values(|f: Seq<Part>| mirror_of(root, f));
    if files.len() == 0 {
        assert(sources_of(root, mirrors) =~= files);
    } else {
        let rest = files.drop_last();
        assert forall|i: int| 0 <= i < rest.len() implies path::is_path(#[trigger] rest[i])
            && rest[i].len() > 0 && rest[i].last() is Normal by {
            assert(rest[i] == files[i]);
        }
        lemma_mirrored_files_listed(root, rest);
        assert(mirrors.drop_last() =~= rest.map_values(|f: Seq<Part>| mirror_of(root, f)));
        assert(files[files.len() - 1] == files.last());
        lemma_mirror_roundtrip(root, files.last());
        assert(rest.push(files.last()) =~= files);
    }
}

fn dot_in(name: &Vec<u8>) -> (dot: Option<usize>)
    ensures
        match dot {
            Some(d) => last_dot(name@, name@.len() as int) == Some(d as int) && 1 <= d < name@.len(),
            None => last_dot(name@, name@.len() as int) is None,
        },
{
    let n: usize = name.len();
    if n == 2 && name[0] == path::DOT && name[1] == path::DOT {
        assert(name@ =~= seq![path::DOT, path::DOT]);
        return None;
    }
    assert(name@ != seq![path::DOT, path::DOT]) by {
        if name@ == seq![path::DOT, path::DOT] {
            assert(name@[0] == path::DOT && name@[1] == path::DOT);
        }
    }
    let mut i: usize = n;
    while i > 1
        invariant
            n == name@.len(),
            i <= n,
            name@ != seq![path::DOT, path::DOT],
            last_dot(name@, n as int) == last_dot(name@, i as int),
        decreases i,
    {
        if name[i - 1] == path::DOT {
            return Some(i - 1);
        }
        i -= 1;
    }
    None
}

fn bytes_part(bytes: &Vec<u8>, from: usize, to: usize) -> (out: Vec<u8>)
    requires
        from <= to <= bytes@.len(),
    ensures
        out@ == bytes@.subrange(from as int, to as int),
{
    let mut out: Vec<u8> = Vec::new();
    let mut i: usize = from;
    while i < to
        invariant
            from <= i <= to <= bytes@.len(),
            out@ == bytes@.subrange(from as int, i as int),
        decreases to - i,
    {
        out.push(bytes[i]);
        i += 1;
        assert(out@ =~= bytes@.subrange(from as int, i as int));
    }
    out
}

fn stem_of(name: &Vec<u8>) -> (out: Vec<u8>)
    ensures
        out@ == stem(name@),
{
    match dot_in(name) {
        Some(dot) => {
            let out = bytes_part(name, 0, dot);
            assert(out@ =~= name@.take(dot as int));
            out
        },
        None => clone_bytes(name),
    }
}

fn push_name(dir: &mut TreePath, name: Vec<u8>)
    ensures
        final(dir)@ == with_name(old(dir)@, name@),
{
    let n: usize = name.len();
    if n == 2 && name[0] == path::DOT && name[1] == path::DOT {
        assert(name@ =~= seq![path::DOT, path::DOT]);
        dir.push(Component::Parent);
    } else if n == 1 && name[0] == path::DOT {
        assert(name@ =~= seq![path::DOT]);
        assert(name@ != seq![path::DOT, path::DOT]) by {
            assert(seq![path::DOT, path::DOT].len() == 2);
        }
        if dir.components.len() == 0 {
            dir.push(Component::Cur);
        }
    } else {
        assert(name@ != seq![path::DOT, path::DOT]) by {
            if name@ == seq![path::DOT, path::DOT] {
                assert(name@[0] == path::DOT && name@[1] == path::DOT && name@.len() == 2);
            }
        }
        assert(name@ != seq![path::DOT]) by {
            if name@ == seq![path::DOT] {
                assert(name@[0] == path::DOT && name@.len() == 1);
            }
        }
        dir.push(Component::Normal(name));
    }
}

/// Whether a file of this name holds a log: whether its extension is `jsonl`.
pub fn is_mirror_name(name: &Vec<u8>) -> (yes: bool)
    ensures
        yes == is_mirror(name@),
{
    match dot_in(name) {
        None => false,
        Some(dot) => {
            let suffix: [u8; 6] = [46u8, 106, 115, 111, 110, 108];
            assert(suffix@ =~= mirror_suffix());
            let ghost tail = name@.skip(dot as int);
            let n: usize = name.len();
            if n - dot != 6 {
                assert(tail.len() != mirror_suffix().len());
                return false;
            }
            let mut i: usize = 0;
            while i < 6
                invariant
                    i <= 6,
                    n == name@.len(),
                    dot + 6 == n,
                    last_dot(name@, name@.len() as int) == Some(dot as int),
                    suffix@ == mirror_suffix(),
                    tail == name@.skip(dot as int),
                    forall|j: int| 0 <= j < i ==> tail[j] == mirror_suffix()[j],
                decreases 6 - i,
            {
                if name[dot + i] != suffix[i] {
                    assert(tail[i as int] != mirror_suffix()[i as int]);
                    return false;
                }
                i += 1;
            }
            assert(tail =~= mirror_suffix());
            true
        },
    }
}

proof fn lemma_suffix_text()
    ensures
        vstd::utf8::encode_utf8(".annot"@) == annot_name(),
        vstd::utf8::encode_utf8(".jsonl"@) == mirror_suffix(),
{
    reveal_strlit(".annot");
    reveal_strlit(".jsonl");
    assert(vstd::utf8::is_ascii_chars(".annot"@));
    assert(vstd::utf8::is_ascii_chars(".jsonl"@));
    vstd::utf8::is_ascii_chars_encode_utf8(".annot"@);
    vstd::utf8::is_ascii_chars_encode_utf8(".jsonl"@);
    assert(vstd::utf8::encode_utf8(".annot"@) =~= annot_name());
    assert(vstd::utf8::encode_utf8(".jsonl"@) =~= mirror_suffix());
}

/// The log of a source file lies under `.annot/` where the file lies under the root, and its
/// name is the file's with `.jsonl` behind it.
pub proof fn lemma_mirror_place(root: Seq<Part>, dir: Seq<Part>, name: Seq<u8>)
    ensures
        mirror_of(root, dir.push(Part::Normal(name))) == root + seq![
            Part::Normal(vstd::utf8::encode_utf8(".annot"@)),
        ] + dir + seq![Part::Normal(name + vstd::utf8::encode_utf8(".jsonl"@))],
{
    lemma_suffix_text();
    let rel = dir.push(Part::Normal(name));
    assert(rel.drop_last() =~= dir);
    assert(mirror_of(root, rel) =~= root + seq![Part::Normal(annot_name())] + dir + seq![
        Part::Normal(name + mirror_suffix()),
    ]);
}

proof fn lemma_no_dot_behind(name: Seq<u8>, n: int)
    requires
        0 <= n <= name.len(),
    ensures
        match last_dot(name, n) {
            Some(dot) => {
                &&& 1 <= dot < n
                &&& name[dot] == path::DOT
                &&& forall|i: int| dot < i < n ==> (#[trigger] name[i]) != path::DOT
            },
            None => name == seq![path::DOT, path::DOT] || forall|i: int|
                1 <= i < n ==> (#[trigger] name[i]) != path::DOT,
        },
    decreases n,
{
    if n > 1 && name != seq![path::DOT, path::DOT] && name[n - 1] != path::DOT {
        lemma_no_dot_behind(name, n - 1);
    }
}

/// A file is taken for a log if and only if something stands before `.jsonl` in its name, and
/// nothing behind it.
pub proof fn lemma_mirror_names(name: Seq<u8>)
    ensures
        is_mirror(name) <==> name.len() > 6 && name.skip(name.len() - 6)
            == vstd::utf8::encode_utf8(".jsonl"@),
{
    lemma_suffix_text();
    let n = name.len() as int;
    lemma_no_dot_behind(name, n);
    if is_mirror(name) {
        let dot = last_dot(name, n)->0;
        assert(name.skip(dot).len() == 6);
    }
    if n > 6 && name.skip(n - 6) == mirror_suffix() {
        let own = name.take(n - 6);
        assert(name =~= own + mirror_suffix());
        lemma_dot_before_suffix(own, n);
    }
}

/// A log leads back to the source file that it is named after, and a file outside `.annot/` to
/// none.
pub proof fn lemma_source_of_mirror(root: Seq<Part>, dir: Seq<Part>, name: Seq<u8>, other: Seq<Part>)
    requires
        name.len() > 0,
        name != seq![46u8],
        name != seq![46u8, 46],
    ensures
        source_of(
            root,
            root + seq![Part::Normal(vstd::utf8::encode_utf8(".annot"@))] + dir + seq![
                Part::Normal(name + vstd::utf8::encode_utf8(".jsonl"@)),
            ],
        ) == Some(dir.push(Part::Normal(name))),
        !root.push(Part::Normal(vstd::utf8::encode_utf8(".annot"@))).is_prefix_of(other)
            ==> source_of(root, other) is None,
{
    lemma_suffix_text();
    let base = root.push(Part::Normal(annot_name()));
    let full = name + mirror_suffix();
    let mirror = root + seq![Part::Normal(annot_name())] + dir + seq![Part::Normal(full)];
    lemma_dot_before_suffix(name, full.len() as int);
    assert(full.take(name.len() as int) =~= name);
    assert(mirror.subrange(0, base.len() as int) =~= base);
    let tail = mirror.skip(base.len() as int);
    assert(tail =~= dir.push(Part::Normal(full)));
    assert(tail.drop_last() =~= dir);
}

/// Of a file under `.annot/` what stands behind the last dot of its name is cut off, and a
/// name with no dot behind its first character is kept whole.
pub proof fn lemma_extension_is_cut(
    root: Seq<Part>,
    dir: Seq<Part>,
    name: Seq<u8>,
    extension: Seq<u8>,
)
    requires
        name.len() > 0,
        name != seq![46u8],
        name != seq![46u8, 46],
    ensures
        !extension.contains(46) ==> source_of(
            root,
            root + seq![Part::Normal(vstd::utf8::encode_utf8(".annot"@))] + dir + seq![
                Part::Normal(name + seq![46u8] + extension),
            ],
        ) == Some(dir.push(Part::Normal(name))),
        !name.skip(1).contains(46) ==> source_of(
            root,
            root + seq![Part::Normal(vstd::utf8::encode_utf8(".annot"@))] + dir + seq![
                Part::Normal(name),
            ],
        ) == Some(dir.push(Part::Normal(name))),
{
    lemma_suffix_text();
    let base = root.push(Part::Normal(annot_name()));
    let full = name + seq![46u8] + extension;
    let long = root + seq![Part::Normal(annot_name())] + dir + seq![Part::Normal(full)];
    let short = root + seq![Part::Normal(annot_name())] + dir + seq![Part::Normal(name)];
    assert(long.subrange(0, base.len() as int) =~= base);
    assert(short.subrange(0, base.len() as int) =~= base);
    assert(long.skip(base.len() as int) =~= dir.push(Part::Normal(full)));
    assert(short.skip(base.len() as int) =~= dir.push(Part::Normal(name)));
    assert(dir.push(Part::Normal(full)).drop_last() =~= dir);
    assert(dir.push(Part::Normal(name)).drop_last() =~= dir);
    if !extension.contains(46) {
        let at = name.len() as int;
        assert(full[at] == 46);
        assert forall|i: int| at < i < full.len() implies (#[trigger] full[i]) != 46 by {
            assert(extension[i - at - 1] == full[i]);
        }
        lemma_no_dot_behind(full, full.len() as int);
        assert(full != seq![path::DOT, path::DOT]) by {
            if full == seq![path::DOT, path::DOT] {
                assert(name =~= full.take(at));
                assert(extension.len() == 0);
                assert(name =~= seq![46u8]);
            }
        }
        assert(full.take(at) =~= name);
    }
    if !name.skip(1).contains(46) {
        assert forall|i: int| 1 <= i < name.len() implies (#[trigger] name[i]) != 46 by {
            assert(name.skip(1)[i - 1] == name[i]);
        }
        lemma_no_dot_behind(name, name.len() as int);
    }
}

/// A path names a source file if and only if, once it is followed from the current directory
/// and resolved, it lies under the root and not in `.annot/`; then the rest behind the root is
/// its name. A path elsewhere is refused as such, and one in `.annot/` as reserved.
pub proof fn lemma_source_rel_decides(root: Seq<Part>, source: Seq<Part>, cwd: Seq<Part>)
    ensures
        ({
            let place = path::normal_form(
                if source.len() > 0 && source[0] is Root {
                    source
                } else {
                    cwd + source
                },
            );
            match source_rel_of(root, source, cwd) {
                Ok(rel) => place == root + rel && !(rel.len() > 0 && rel[0] == Part::Normal(
                    vstd::utf8::encode_utf8(".annot"@),
                )),
                Err(Refusal::Outside(p)) => p == place && !root.is_prefix_of(place),
                Err(Refusal::Reserved(rel)) => place == root + rel && rel.len() > 0 && rel[0]
                    == Part::Normal(vstd::utf8::encode_utf8(".annot"@)),
            }
        }),
{
    lemma_suffix_text();
    path::lemma_joined(cwd, source);
    let place = path::normal_form(path::joined(cwd, source));
    if root.is_prefix_of(place) {
        assert(root + place.skip(root.len() as int) =~= place);
    }
}

/// The annotated files are listed once for every log, in the order of their paths.
pub proof fn lemma_files_are_listed_in_order(root: Seq<Part>, mirrors: Seq<Seq<Part>>)
    ensures
        ({
            let listed = order::stable_sort(
                sources_of(root, mirrors),
                |a: Seq<Part>, b: Seq<Part>| path::path_less(a, b),
            );
            &&& listed.to_multiset() == mirrors.map_values(
                |m: Seq<Part>| source_of(root, m),
            ).filter(|s: Option<Seq<Part>>| s is Some).map_values(
                |s: Option<Seq<Part>>| s->0,
            ).to_multiset()
            &&& forall|i: int, j: int|
                0 <= i < j < listed.len() ==> (#[trigger] listed[i]) == (#[trigger] listed[j])
                    || path::path_less(listed[i], listed[j])
        }),
{
    let less = |a: Seq<Part>, b: Seq<Part>| path::path_less(a, b);
    path::lemma_path_order();
    order::lemma_total_is_weak(less);
    order::lemma_stable_sort(sources_of(root, mirrors), less);
    lemma_sources_of(root, mirrors);
    let listed = order::stable_sort(sources_of(root, mirrors), less);
    assert forall|i: int, j: int| 0 <= i < j < listed.len() implies (#[trigger] listed[i]) == (
    #[trigger] listed[j]) || path::path_less(listed[i], listed[j]) by {
        assert(!less(listed[j], listed[i]));
        assert(less(listed[i], listed[j]) || listed[i] == listed[j] || less(listed[j], listed[i]));
    }
}

proof fn lemma_sources_of(root: Seq<Part>, mirrors: Seq<Seq<Part>>)
    ensures
        sources_of(root, mirrors) == mirrors.map_values(
            |m: Seq<Part>| source_of(root, m),
        ).filter(|s: Option<Seq<Part>>| s is Some).map_values(|s: Option<Seq<Part>>| s->0),
    decreases mirrors.len(),
{
    reveal(Seq::filter);
    let source = |m: Seq<Part>| source_of(root, m);
    let there = |s: Option<Seq<Part>>| s is Some;
    let get = |s: Option<Seq<Part>>| s->0;
    let all = mirrors.map_values(source);
    if mirrors.len() == 0 {
        assert(sources_of(root, mirrors) =~= all.filter(there).map_values(get));
    } else {
        lemma_sources_of(root, mirrors.drop_last());
        assert(all.drop_last() =~= mirrors.drop_last().map_values(source));
        assert(all.last() == source_of(root, mirrors.last()));
        assert(sources_of(root, mirrors) =~= all.filter(there).map_values(get));
    }
}

/// A search for an annotation ends at a log that cannot be read, and at one whose last record of
/// that id is no tombstone.
pub proof fn lemma_search_ends(raw: Vec<Record>, error: StoreError, id: Ulid)
    ensures
        ends_search(Err(error), id),
        ends_search(Ok(raw), id) <==> exists|i: int| #[trigger]
            fold::is_last(model::record_views(raw@), i) && raw@[i].id == id && raw@[i].status
                != model::Status::Tombstone,
{
    let log = model::record_views(raw@);
    fold::lemma_log_holds_the_last(log, id);
    if exists|i: int| #[trigger]
        fold::is_last(log, i) && raw@[i].id == id && raw@[i].status != model::Status::Tombstone {
        let i = choose|i: int| #[trigger]
            fold::is_last(log, i) && raw@[i].id == id && raw@[i].status != model::Status::Tombstone;
        assert(log[i] == raw@[i]@);
    }
    if ends_search(Ok(raw), id) {
        let i = choose|i: int| #[trigger]
            fold::is_last(log, i) && log[i] == survivors_of(raw@)[id] && log[i].id == id;
        assert(log[i] == raw@[i]@);
    }
}

} // verus!
