//! File paths as sequences of components.

use vstd::prelude::*;

use crate::lines;
use crate::lines::lossy;
use crate::order;
use crate::order::Ranked;
use crate::segments;

verus! {

/// One component of a path.
#[derive(Debug, PartialEq, Eq)]
pub enum Component {
    /// The root directory.
    Root,
    /// A leading `.`.
    Cur,
    /// A `..`.
    Parent,
    /// The name of a file or directory.
    Normal(Vec<u8>),
}

/// A path.
#[derive(Debug, PartialEq, Eq)]
pub struct TreePath {
    pub components: Vec<Component>,
}

/// What a component says.
pub enum Part {
    Root,
    Cur,
    Parent,
    Normal(Seq<u8>),
}

impl View for Component {
    type V = Part;

    open spec fn view(&self) -> Part {
        match self {
            Component::Root => Part::Root,
            Component::Cur => Part::Cur,
            Component::Parent => Part::Parent,
            Component::Normal(name) => Part::Normal(name@),
        }
    }
}

impl View for TreePath {
    type V = Seq<Part>;

    open spec fn view(&self) -> Seq<Part> {
        self.components@.map_values(|c: Component| c@)
    }
}

/// What each path says.
pub open spec fn path_views(paths: Seq<TreePath>) -> Seq<Seq<Part>> {
    paths.map_values(|p: TreePath| p@)
}

/// The byte `.`.
pub const DOT: u8 = 46;

/// Whether the bytes can name a file: not empty, and neither `.` nor `..`.
pub open spec fn is_name(name: Seq<u8>) -> bool {
    name.len() > 0 && name != seq![DOT] && name != seq![DOT, DOT]
}

/// Whether the components are those of a path: the root and `.` stand only at the
/// front, and names are names.
pub open spec fn is_path(parts: Seq<Part>) -> bool {
    &&& forall|i: int|
        0 < i < parts.len() ==> !((#[trigger] parts[i]) is Root) && !(parts[i] is Cur)
    &&& forall|i: int|
        0 <= i < parts.len() ==> ((#[trigger] parts[i]) matches Part::Normal(n) ==> is_name(n))
}

/// Whether the path starts at the root.
pub open spec fn is_absolute(parts: Seq<Part>) -> bool {
    parts.len() > 0 && parts[0] is Root
}

/// The path `rel` seen from `base`.
pub open spec fn joined(base: Seq<Part>, rel: Seq<Part>) -> Seq<Part> {
    if is_absolute(rel) {
        rel
    } else if base.len() > 0 && rel.len() > 0 && rel[0] is Cur {
        base + rel.skip(1)
    } else {
        base + rel
    }
}

/// The path with every `.` left out and every `..` resolved against the name before it.
pub open spec fn normal_form(parts: Seq<Part>) -> Seq<Part>
    decreases parts.len(),
{
    if parts.len() == 0 {
        parts
    } else {
        let head = normal_form(parts.drop_last());
        match parts.last() {
            Part::Cur => head,
            Part::Parent => if head.len() > 0 && head.last() is Normal {
                head.drop_last()
            } else {
                head.push(Part::Parent)
            },
            other => head.push(other),
        }
    }
}

/// Whether nothing is left to resolve: no `.`, and no `..` behind a name.
pub open spec fn is_normal(parts: Seq<Part>) -> bool {
    &&& forall|i: int| 0 <= i < parts.len() ==> !((#[trigger] parts[i]) is Cur)
    &&& forall|i: int|
        0 < i < parts.len() && (#[trigger] parts[i]) is Parent ==> !(parts[i - 1] is Normal)
}

/// What is left of `parts` behind `prefix`, if that is how it begins.
pub open spec fn behind(parts: Seq<Part>, prefix: Seq<Part>) -> Option<Seq<Part>> {
    if prefix.is_prefix_of(parts) {
        Some(parts.skip(prefix.len() as int))
    } else {
        None
    }
}

/// The order of components: root, `.`, `..`, then names by their bytes.
pub open spec fn part_less(a: Part, b: Part) -> bool {
    match (a, b) {
        (Part::Normal(x), Part::Normal(y)) => order::lex_less(|p: u8, q: u8| p < q, x, y),
        _ => part_rank(a) < part_rank(b),
    }
}

/// The place of a kind of component among the kinds.
pub open spec fn part_rank(p: Part) -> int {
    match p {
        Part::Root => 0,
        Part::Cur => 1,
        Part::Parent => 2,
        Part::Normal(_) => 3,
    }
}

/// The order of paths: component by component.
pub open spec fn path_less(a: Seq<Part>, b: Seq<Part>) -> bool {
    order::lex_less(|p: Part, q: Part| part_less(p, q), a, b)
}

/// Of two different components, one comes before the other.
proof fn lemma_part_order()
    ensures
        order::strict_total(|a: Part, b: Part| part_less(a, b)),
{
    let bytes = |p: u8, q: u8| p < q;
    let parts = |p: Part, q: Part| part_less(p, q);
    assert(order::strict_total(bytes));
    order::lemma_lex_total(bytes);
    let names = |x: Seq<u8>, y: Seq<u8>| order::lex_less(bytes, x, y);
    assert forall|a: Part| !(#[trigger] parts(a, a)) by {
        if let Part::Normal(x) = a {
            assert(!names(x, x));
        }
    }
    assert forall|a: Part, b: Part| #[trigger] parts(a, b) || a == b || parts(b, a) by {
        if let (Part::Normal(x), Part::Normal(y)) = (a, b) {
            assert(names(x, y) || x == y || names(y, x));
        }
    }
    assert forall|a: Part, b: Part, c: Part| #[trigger]
        parts(a, b) && #[trigger] parts(b, c) implies parts(a, c) by {
        if let (Part::Normal(x), Part::Normal(y)) = (a, b) {
            if let Part::Normal(z) = c {
                assert(names(x, y) && names(y, z));
            }
        }
    }
}

/// Of two different paths, one comes before the other.
pub proof fn lemma_path_order()
    ensures
        order::strict_total(|a: Seq<Part>, b: Seq<Part>| path_less(a, b)),
{
    let parts = |a: Part, b: Part| part_less(a, b);
    lemma_part_order();
    order::lemma_lex_total(parts);
    assert(order::strict_total(|a: Seq<Part>, b: Seq<Part>| path_less(a, b))) by {
        let f = |a: Seq<Part>, b: Seq<Part>| path_less(a, b);
        let g = |a: Seq<Part>, b: Seq<Part>| order::lex_less(parts, a, b);
        assert(f =~= g);
    }
}

/// A copy of bytes.
pub fn clone_bytes(bytes: &Vec<u8>) -> (out: Vec<u8>)
    ensures
        out@ == bytes@,
{
    let mut out: Vec<u8> = Vec::new();
    let mut i: usize = 0;
    while i < bytes.len()
        invariant
            i <= bytes@.len(),
            out@ == bytes@.take(i as int),
        decreases bytes@.len() - i,
    {
        out.push(bytes[i]);
        i += 1;
        assert(out@ =~= bytes@.take(i as int));
    }
    assert(bytes@.take(i as int) =~= bytes@);
    out
}

impl Clone for Component {
    fn clone(&self) -> (out: Component)
        ensures
            out@ == self@,
    {
        match self {
            Component::Root => Component::Root,
            Component::Cur => Component::Cur,
            Component::Parent => Component::Parent,
            Component::Normal(name) => Component::Normal(clone_bytes(name)),
        }
    }
}

impl Clone for TreePath {
    fn clone(&self) -> (out: TreePath)
        ensures
            out@ == self@,
    {
        let out = TreePath { components: clone_part(&self.components, 0, self.components.len()) };
        assert(self@.subrange(0, self.components@.len() as int) =~= self@);
        out
    }
}

/// A copy of the components `from..to`.
fn clone_part(components: &Vec<Component>, from: usize, to: usize) -> (out: Vec<Component>)
    requires
        from <= to <= components@.len(),
    ensures
        out@.map_values(|c: Component| c@) == components@.map_values(
            |c: Component| c@,
        ).subrange(from as int, to as int),
{
    let mut out: Vec<Component> = Vec::new();
    let mut i: usize = from;
    while i < to
        invariant
            from <= i <= to <= components@.len(),
            out@.len() == i - from,
            forall|j: int| 0 <= j < i - from ==> (#[trigger] out@[j])@ == components@[from + j]@,
        decreases to - i,
    {
        out.push(components[i].clone());
        i += 1;
    }
    assert(out@.map_values(|c: Component| c@) =~= components@.map_values(
        |c: Component| c@,
    ).subrange(from as int, to as int));
    out
}

/// Whether two byte strings are the same.
pub fn same_bytes(a: &Vec<u8>, b: &Vec<u8>) -> (same: bool)
    ensures
        same == (a@ == b@),
{
    if a.len() != b.len() {
        return false;
    }
    let mut i: usize = 0;
    while i < a.len()
        invariant
            a@.len() == b@.len(),
            i <= a@.len(),
            forall|j: int| 0 <= j < i ==> a@[j] == b@[j],
        decreases a@.len() - i,
    {
        if a[i] != b[i] {
            return false;
        }
        i += 1;
    }
    assert(a@ =~= b@);
    true
}

impl Component {
    /// Whether two components say the same.
    pub fn same(&self, other: &Component) -> (same: bool)
        ensures
            same == (self@ == other@),
    {
        match (self, other) {
            (Component::Root, Component::Root) => true,
            (Component::Cur, Component::Cur) => true,
            (Component::Parent, Component::Parent) => true,
            (Component::Normal(a), Component::Normal(b)) => same_bytes(a, b),
            _ => false,
        }
    }

    fn rank(&self) -> (r: u8)
        ensures
            r == part_rank(self@),
    {
        match self {
            Component::Root => 0,
            Component::Cur => 1,
            Component::Parent => 2,
            Component::Normal(_) => 3,
        }
    }

    /// Whether this component comes before `other`.
    pub fn less(&self, other: &Component) -> (yes: bool)
        ensures
            yes == part_less(self@, other@),
    {
        match (self, other) {
            (Component::Normal(a), Component::Normal(b)) => bytes_less(a, b),
            _ => self.rank() < other.rank(),
        }
    }
}

/// Whether bytes `a` come before bytes `b`.
fn bytes_less(a: &Vec<u8>, b: &Vec<u8>) -> (yes: bool)
    ensures
        yes == order::lex_less(|p: u8, q: u8| p < q, a@, b@),
{
    let ghost less = |p: u8, q: u8| p < q;
    let mut i: usize = 0;
    assert(a@.skip(0) =~= a@);
    assert(b@.skip(0) =~= b@);
    while i < a.len() && i < b.len() && a[i] == b[i]
        invariant
            i <= a@.len(),
            i <= b@.len(),
            less == (|p: u8, q: u8| p < q),
            order::lex_less(less, a@, b@) == order::lex_less(
                less,
                a@.skip(i as int),
                b@.skip(i as int),
            ),
        decreases a@.len() - i,
    {
        assert(a@.skip(i as int).skip(1) =~= a@.skip(i + 1));
        assert(b@.skip(i as int).skip(1) =~= b@.skip(i + 1));
        i += 1;
    }
    if i >= b.len() {
        false
    } else if i >= a.len() {
        true
    } else {
        a[i] < b[i]
    }
}

impl Ranked for TreePath {
    open spec fn before(a: TreePath, b: TreePath) -> bool {
        path_less(a@, b@)
    }

    fn comes_before(&self, other: &TreePath) -> (yes: bool) {
        let ghost less = |p: Part, q: Part| part_less(p, q);
        let a = &self.components;
        let b = &other.components;
        let mut i: usize = 0;
        assert(self@.skip(0) =~= self@);
        assert(other@.skip(0) =~= other@);
        while i < a.len() && i < b.len() && a[i].same(&b[i])
            invariant
                a == &self.components,
                b == &other.components,
                i <= a@.len(),
                i <= b@.len(),
                less == (|p: Part, q: Part| part_less(p, q)),
                order::lex_less(less, self@, other@) == order::lex_less(
                    less,
                    self@.skip(i as int),
                    other@.skip(i as int),
                ),
            decreases a@.len() - i,
        {
            assert(self@.skip(i as int).skip(1) =~= self@.skip(i + 1));
            assert(other@.skip(i as int).skip(1) =~= other@.skip(i + 1));
            assert(!part_less(a@[i as int]@, b@[i as int]@)) by {
                lemma_part_irreflexive(a@[i as int]@);
            }
            i += 1;
        }
        if i >= b.len() {
            false
        } else if i >= a.len() {
            true
        } else {
            a[i].less(&b[i])
        }
    }
}

proof fn lemma_part_irreflexive(p: Part)
    ensures
        !part_less(p, p),
{
    if let Part::Normal(x) = p {
        let bytes = |p: u8, q: u8| p < q;
        order::lemma_lex_total(bytes);
        let names = |x: Seq<u8>, y: Seq<u8>| order::lex_less(bytes, x, y);
        assert(!names(x, x));
    }
}

impl TreePath {
    /// The empty path.
    pub fn new() -> (out: TreePath)
        ensures
            out@ == Seq::<Part>::empty(),
    {
        let out = TreePath { components: Vec::new() };
        assert(out@ =~= Seq::<Part>::empty());
        out
    }

    /// Whether two paths say the same.
    pub fn same(&self, other: &TreePath) -> (same: bool)
        ensures
            same == (self@ == other@),
    {
        if self.components.len() != other.components.len() {
            assert(self@.len() != other@.len());
            return false;
        }
        let same = other.starts_with(self);
        assert(self@.is_prefix_of(other@) ==> self@ =~= other@);
        same
    }

    /// Whether the path starts at the root.
    pub fn is_absolute(&self) -> (yes: bool)
        ensures
            yes == is_absolute(self@),
    {
        self.components.len() > 0 && matches!(self.components[0], Component::Root)
    }

    /// Whether the path has no component.
    pub fn is_empty(&self) -> (yes: bool)
        ensures
            yes == (self@.len() == 0),
    {
        self.components.len() == 0
    }

    /// Whether the path begins with the components of `prefix`.
    pub fn starts_with(&self, prefix: &TreePath) -> (yes: bool)
        ensures
            yes == prefix@.is_prefix_of(self@),
    {
        if prefix.components.len() > self.components.len() {
            return false;
        }
        let mut i: usize = 0;
        while i < prefix.components.len()
            invariant
                prefix.components@.len() <= self.components@.len(),
                i <= prefix.components@.len(),
                forall|j: int| 0 <= j < i ==> (#[trigger] prefix@[j]) == self@[j],
            decreases prefix.components@.len() - i,
        {
            if !prefix.components[i].same(&self.components[i]) {
                assert(prefix@[i as int] != self@[i as int]);
                return false;
            }
            i += 1;
        }
        assert(prefix@ =~= self@.subrange(0, prefix@.len() as int));
        true
    }

    /// What is left of the path behind `prefix`, if that is how it begins.
    pub fn strip_prefix(&self, prefix: &TreePath) -> (rest: Option<TreePath>)
        ensures
            match rest {
                Some(r) => behind(self@, prefix@) == Some(r@),
                None => behind(self@, prefix@) is None,
            },
    {
        if self.starts_with(prefix) {
            let rest = clone_part(
                &self.components,
                prefix.components.len(),
                self.components.len(),
            );
            let out = TreePath { components: rest };
            assert(out@ =~= self@.skip(prefix@.len() as int));
            Some(out)
        } else {
            None
        }
    }

    /// The path `rel` seen from this one.
    pub fn join(&self, rel: &TreePath) -> (out: TreePath)
        ensures
            out@ == joined(self@, rel@),
    {
        if rel.is_absolute() {
            return rel.clone();
        }
        let mut out = self.clone();
        let mut i: usize = if self.components.len() > 0 && rel.components.len() > 0 && matches!(rel.components[0], Component::Cur) {
            1
        } else {
            0
        };
        let ghost first = i as int;
        assert(out@ =~= self@ + rel@.subrange(first, i as int));
        while i < rel.components.len()
            invariant
                0 <= first <= i <= rel.components@.len(),
                out@ == self@ + rel@.subrange(first, i as int),
            decreases rel.components@.len() - i,
        {
            let ghost before = out@;
            out.push(rel.components[i].clone());
            i += 1;
            assert(out@ =~= self@ + rel@.subrange(first, i as int));
        }
        assert(rel@.subrange(first, i as int) =~= rel@.skip(first));
        assert(rel@.skip(0) =~= rel@);
        out
    }

    /// Adds a component at the end.
    pub fn push(&mut self, component: Component)
        ensures
            final(self)@ == old(self)@.push(component@),
    {
        let ghost before = self@;
        self.components.push(component);
        assert(self@ =~= before.push(component@));
    }
}

/// The path with every `.` left out and every `..` resolved against the name before it.
pub fn normalize_lexically(path: &TreePath) -> (out: TreePath)
    ensures
        out@ == normal_form(path@),
{
    let mut out = TreePath::new();
    let mut i: usize = 0;
    assert(path@.take(0) =~= Seq::<Part>::empty());
    while i < path.components.len()
        invariant
            i <= path.components@.len(),
            out@ == normal_form(path@.take(i as int)),
        decreases path.components@.len() - i,
    {
        let ghost before = out@;
        assert(path@.take(i + 1).drop_last() =~= path@.take(i as int));
        assert(path@.take(i + 1).last() == path.components@[i as int]@);
        match &path.components[i] {
            Component::Cur => {},
            Component::Parent => {
                let n: usize = out.components.len();
                if n > 0 && matches!(out.components[n - 1], Component::Normal(_)) {
                    assert(out@.last() is Normal);
                    out.components.pop();
                    assert(out@ =~= before.drop_last());
                } else {
                    assert(n > 0 ==> !(out@.last() is Normal));
                    out.push(Component::Parent);
                }
            },
            other => {
                out.push(other.clone());
            },
        }
        i += 1;
    }
    assert(path@.take(i as int) =~= path@);
    out
}

/// Resolving leaves nothing to resolve.
pub proof fn lemma_normal_form(parts: Seq<Part>)
    ensures
        is_normal(normal_form(parts)),
    decreases parts.len(),
{
    if parts.len() > 0 {
        lemma_normal_form(parts.drop_last());
    }
}

/// Where nothing is left to resolve, resolving changes nothing.
pub proof fn lemma_normal_fixed(parts: Seq<Part>)
    requires
        is_normal(parts),
    ensures
        normal_form(parts) == parts,
    decreases parts.len(),
{
    if parts.len() > 0 {
        let head = parts.drop_last();
        assert forall|i: int| 0 <= i < head.len() implies !((#[trigger] head[i]) is Cur) by {
            assert(head[i] == parts[i]);
        }
        assert forall|i: int| 0 < i < head.len() && (#[trigger] head[i]) is Parent implies !(head[i
            - 1] is Normal) by {
            assert(head[i] == parts[i] && head[i - 1] == parts[i - 1]);
        }
        lemma_normal_fixed(head);
        let last = parts[parts.len() - 1];
        assert(!(last is Cur));
        if head.len() > 0 {
            assert(head.last() == parts[parts.len() - 2]);
        }
        assert(head.push(last) =~= parts);
    }
}

/// Resolving a path twice is the same as resolving it once.
pub proof fn lemma_normal_idempotent(parts: Seq<Part>)
    ensures
        normal_form(normal_form(parts)) == normal_form(parts),
{
    lemma_normal_form(parts);
    lemma_normal_fixed(normal_form(parts));
}

/// The byte `/`.
pub const SLASH: u8 = 47;

/// The bytes of a component; the root has none of its own.
pub open spec fn part_bytes(part: Part) -> Seq<u8> {
    match part {
        Part::Root => seq![],
        Part::Cur => seq![DOT],
        Part::Parent => seq![DOT, DOT],
        Part::Normal(name) => name,
    }
}

/// The bytes of a path: its components with slashes between them.
pub open spec fn path_bytes(parts: Seq<Part>) -> Seq<u8> {
    if parts.len() == 1 && parts[0] is Root {
        seq![SLASH]
    } else {
        segments::join(parts.map_values(|p: Part| part_bytes(p)), seq![SLASH])
    }
}

impl TreePath {
    /// The bytes of the path.
    pub fn to_bytes(&self) -> (out: Vec<u8>)
        ensures
            out@ == path_bytes(self@),
    {
        let ghost pieces = self@.map_values(|p: Part| part_bytes(p));
        let n: usize = self.components.len();
        let mut out: Vec<u8> = Vec::new();
        if n == 1 && matches!(self.components[0], Component::Root) {
            assert(self@[0] is Root);
            out.push(SLASH);
            assert(out@ =~= seq![SLASH]);
            return out;
        }
        assert(!(self@.len() == 1 && self@[0] is Root));
        let mut i: usize = 0;
        while i < n
            invariant
                i <= n,
                n == self.components@.len(),
                pieces == self@.map_values(|p: Part| part_bytes(p)),
                out@ == segments::join(pieces.take(i as int), seq![SLASH]),
            decreases n - i,
        {
            let ghost before = out@;
            let ghost head = pieces.take(i + 1);
            assert(head.drop_last() =~= pieces.take(i as int));
            assert(head.last() == part_bytes(self.components@[i as int]@));
            if i > 0 {
                out.push(SLASH);
            }
            let ghost middle = out@;
            match &self.components[i] {
                Component::Root => {},
                Component::Cur => {
                    out.push(DOT);
                },
                Component::Parent => {
                    out.push(DOT);
                    out.push(DOT);
                },
                Component::Normal(name) => {
                    let mut j: usize = 0;
                    while j < name.len()
                        invariant
                            j <= name@.len(),
                            out@ == middle + name@.take(j as int),
                        decreases name@.len() - j,
                    {
                        out.push(name[j]);
                        j += 1;
                        assert(out@ =~= middle + name@.take(j as int));
                    }
                    assert(name@.take(j as int) =~= name@);
                },
            }
            assert(out@ =~= middle + head.last());
            assert(out@ =~= segments::join(head, seq![SLASH]));
            i += 1;
        }
        assert(pieces.take(n as int) =~= pieces);
        out
    }

    /// The path as text. Bytes that are no UTF-8 are replaced.
    pub fn display(&self) -> (out: String)
        ensures
            out@ == lines::text_of(path_bytes(self@)),
    {
        let bytes = self.to_bytes();
        lossy(bytes.as_slice())
    }
}

proof fn lemma_normal_continues(p: Seq<Part>, q: Seq<Part>, rest: Seq<Part>)
    requires
        normal_form(p) == normal_form(q),
    ensures
        normal_form(p + rest) == normal_form(q + rest),
    decreases rest.len(),
{
    if rest.len() == 0 {
        assert(p + rest =~= p);
        assert(q + rest =~= q);
    } else {
        lemma_normal_continues(p, q, rest.drop_last());
        assert((p + rest).drop_last() =~= p + rest.drop_last());
        assert((q + rest).drop_last() =~= q + rest.drop_last());
    }
}

/// Resolving a path takes `.` away, and a name together with the `..` right behind it, wherever
/// they stand.
pub proof fn lemma_resolving_steps(front: Seq<Part>, name: Seq<u8>, rest: Seq<Part>)
    ensures
        normal_form(front + seq![Part::Cur] + rest) == normal_form(front + rest),
        normal_form(front + seq![Part::Normal(name), Part::Parent] + rest) == normal_form(
            front + rest,
        ),
{
    let dotted = front + seq![Part::Cur];
    assert(dotted.drop_last() =~= front);
    lemma_normal_continues(dotted, front, rest);
    let up = front + seq![Part::Normal(name), Part::Parent];
    let down = front.push(Part::Normal(name));
    assert(up.drop_last() =~= down);
    assert(down.drop_last() =~= front);
    assert(normal_form(down) == normal_form(front).push(Part::Normal(name)));
    assert(normal_form(down).drop_last() =~= normal_form(front));
    lemma_normal_continues(up, front, rest);
}

/// A path that starts at the root is itself wherever it is seen from; any other one is followed
/// from there.
pub proof fn lemma_joined(base: Seq<Part>, rel: Seq<Part>)
    ensures
        rel.len() > 0 && rel[0] is Root ==> joined(base, rel) == rel,
        !(rel.len() > 0 && rel[0] is Root) ==> normal_form(joined(base, rel)) == normal_form(
            base + rel,
        ),
{
    if base.len() > 0 && rel.len() > 0 && rel[0] is Cur {
        let rest = rel.skip(1);
        assert(base + rel =~= base + seq![Part::Cur] + rest);
        lemma_resolving_steps(base, Seq::empty(), rest);
    }
}

proof fn lemma_lex_decided<T>(
    less: spec_fn(T, T) -> bool,
    front: Seq<T>,
    x: T,
    s: Seq<T>,
    y: T,
    t: Seq<T>,
)
    requires
        order::strict_total(less),
    ensures
        x != y ==> order::lex_less(less, front + seq![x] + s, front + seq![y] + t) == less(x, y),
        order::lex_less(less, front, front + seq![y] + t),
        !order::lex_less(less, front + seq![y] + t, front),
    decreases front.len(),
{
    let a = front + seq![x] + s;
    let b = front + seq![y] + t;
    if front.len() == 0 {
        assert(a[0] == x && b[0] == y);
    } else {
        lemma_lex_decided(less, front.skip(1), x, s, y, t);
        assert(a[0] == front[0] && b[0] == front[0]);
        assert(a.skip(1) =~= front.skip(1) + seq![x] + s);
        assert(b.skip(1) =~= front.skip(1) + seq![y] + t);
        assert(!less(front[0], front[0]));
    }
}

/// Paths are ordered by the first component in which they differ, and a path comes before what
/// lies below it. Of two names, the first byte in which they differ decides, and a name comes
/// before the longer ones that begin with it.
pub proof fn lemma_first_difference_decides(
    front: Seq<Part>,
    name: Seq<u8>,
    p: u8,
    x: Seq<u8>,
    q: u8,
    y: Seq<u8>,
    s: Seq<Part>,
    t: Seq<Part>,
)
    ensures
        path_less(
            front + seq![Part::Normal(name + seq![p] + x)] + s,
            front + seq![Part::Normal(name + seq![q] + y)] + t,
        ) == (p < q) || p == q,
        path_less(
            front + seq![Part::Normal(name)] + s,
            front + seq![Part::Normal(name + seq![q] + y)] + t,
        ),
        path_less(front, front + seq![Part::Normal(name)] + t),
{
    let bytes = |a: u8, b: u8| a < b;
    let parts = |a: Part, b: Part| part_less(a, b);
    lemma_path_order();
    lemma_part_order();
    assert(order::strict_total(bytes));
    let m = name + seq![p] + x;
    let n = name + seq![q] + y;
    lemma_lex_decided(bytes, name, p, x, q, y);
    assert(parts(Part::Normal(name), Part::Normal(n)));
    assert(name.len() < n.len());
    lemma_lex_decided(parts, front, Part::Normal(name), s, Part::Normal(n), t);
    lemma_lex_decided(parts, front, Part::Normal(name), s, Part::Normal(name), t);
    if p != q {
        assert(m[name.len() as int] == p && n[name.len() as int] == q);
        assert(m != n);
        assert(parts(Part::Normal(m), Part::Normal(n)) == (p < q));
        lemma_lex_decided(parts, front, Part::Normal(m), s, Part::Normal(n), t);
    }
}

/// The bytes of a path are its components with slashes between them, and a slash in front if it
/// starts at the root.
pub proof fn lemma_path_text(dir: Seq<Part>, name: Seq<u8>)
    ensures
        path_bytes(Seq::<Part>::empty()) == Seq::<u8>::empty(),
        path_bytes(seq![Part::Root]) == seq![47u8],
        path_bytes(seq![Part::Normal(name)]) == name,
        path_bytes(seq![Part::Root, Part::Normal(name)]) == seq![47u8] + name,
        dir.len() > 1 || (dir.len() == 1 && !(dir[0] is Root)) ==> path_bytes(
            dir.push(Part::Normal(name)),
        ) == path_bytes(dir) + seq![47u8] + name,
{
    let f = |p: Part| part_bytes(p);
    let full = dir.push(Part::Normal(name));
    assert(full.map_values(f).drop_last() =~= dir.map_values(f));
    assert(full.map_values(f).last() == name);
    let top = seq![Part::Root, Part::Normal(name)];
    assert(top.map_values(f).drop_last() =~= seq![Seq::<u8>::empty()]);
    assert(top.map_values(f).last() == name);
    assert(segments::join(seq![Seq::<u8>::empty()], seq![SLASH]) == Seq::<u8>::empty());
    assert(path_bytes(top) =~= seq![47u8] + name);
}

/// Where two paths differ in the kind of a component, the root comes first, then `.`, then
/// `..`, and any name behind these.
pub proof fn lemma_kind_decides(
    front: Seq<Part>,
    name: Seq<u8>,
    s: Seq<Part>,
    t: Seq<Part>,
)
    ensures
        path_less(front + seq![Part::Root] + s, front + seq![Part::Cur] + t),
        path_less(front + seq![Part::Cur] + s, front + seq![Part::Parent] + t),
        path_less(front + seq![Part::Parent] + s, front + seq![Part::Normal(name)] + t),
{
    let parts = |a: Part, b: Part| part_less(a, b);
    lemma_path_order();
    lemma_part_order();
    assert(parts(Part::Root, Part::Cur));
    assert(parts(Part::Cur, Part::Parent));
    assert(parts(Part::Parent, Part::Normal(name)));
    lemma_lex_decided(parts, front, Part::Root, s, Part::Cur, t);
    lemma_lex_decided(parts, front, Part::Cur, s, Part::Parent, t);
    lemma_lex_decided(parts, front, Part::Parent, s, Part::Normal(name), t);
}

} // verus!
