//! Host paths as the sequence of their components.
//!
//! Two paths are the same path when their components are the same, so the
//! library keeps the components and nothing else: `a//b/` and `a/b` are one
//! value. The root directory counts as a component, written `/`, and can only
//! stand first. A component `.` is kept only where it stands first.

use vstd::prelude::*;

verus! {

/// The byte that separates components, `/`.
pub const SEPARATOR: u8 = 47;

/// The byte `.`.
pub const DOT: u8 = 46;

/// The component that stands for the root directory.
pub open spec fn root_part() -> Seq<u8> {
    seq![SEPARATOR]
}

/// The component `.`.
pub open spec fn cur_part() -> Seq<u8> {
    seq![DOT]
}

/// The component `..`.
pub open spec fn up_part() -> Seq<u8> {
    seq![DOT, DOT]
}

/// A list, each item taken by its view.
pub open spec fn views<T: View>(items: Seq<T>) -> Seq<T::V> {
    Seq::new(items.len(), |i: int| items[i]@)
}

/// A name that can stand anywhere in a path: not empty, without separator.
pub open spec fn is_name(part: Seq<u8>) -> bool {
    part.len() > 0 && !part.contains(SEPARATOR)
}

/// A name that is neither `.` nor `..`.
pub open spec fn is_normal(part: Seq<u8>) -> bool {
    is_name(part) && part != cur_part() && part != up_part()
}

/// What every path made by this module satisfies: the root stands first or
/// nowhere, so does `.`, and every other component is a name.
pub open spec fn well_formed(p: Seq<Seq<u8>>) -> bool {
    forall|i: int|
        0 <= i < p.len() ==> if #[trigger] p[i] == root_part() {
            i == 0
        } else {
            is_name(p[i]) && (p[i] == cur_part() ==> i == 0)
        }
}

/// Whether the path begins at the root directory.
pub open spec fn is_absolute(p: Seq<Seq<u8>>) -> bool {
    p.len() > 0 && p[0] == root_part()
}

/// The path without a leading `.`.
pub open spec fn without_leading_cur(p: Seq<Seq<u8>>) -> Seq<Seq<u8>> {
    if p.len() > 0 && p[0] == cur_part() {
        p.skip(1)
    } else {
        p
    }
}

/// `b` taken relative to `a`: `b` itself where it is absolute or `a` is
/// empty, else the components of `a` followed by those of `b`.
pub open spec fn joined(a: Seq<Seq<u8>>, b: Seq<Seq<u8>>) -> Seq<Seq<u8>> {
    if is_absolute(b) || a.len() == 0 {
        b
    } else {
        a + without_leading_cur(b)
    }
}

/// What is left of `p` behind `base`, where `p` begins with `base`.
pub open spec fn stripped(p: Seq<Seq<u8>>, base: Seq<Seq<u8>>) -> Option<Seq<Seq<u8>>> {
    if base.is_prefix_of(p) {
        Some(p.skip(base.len() as int))
    } else {
        None
    }
}

/// The path without its last component. The empty path and the root have no
/// parent.
pub open spec fn parent_of(p: Seq<Seq<u8>>) -> Option<Seq<Seq<u8>>> {
    if p.len() == 0 || p.last() == root_part() {
        None
    } else {
        Some(p.drop_last())
    }
}

/// The last component, where it is a normal name.
pub open spec fn name_of(p: Seq<Seq<u8>>) -> Option<Seq<u8>> {
    if p.len() > 0 && is_normal(p.last()) {
        Some(p.last())
    } else {
        None
    }
}

/// The path of one name, or the empty path where there is no name.
pub open spec fn name_path(name: Option<Seq<u8>>) -> Seq<Seq<u8>> {
    match name {
        Some(n) => seq![n],
        None => Seq::empty(),
    }
}

/// The byte strings between the separators of `s`, empty ones included.
pub open spec fn pieces(s: Seq<u8>) -> Seq<Seq<u8>>
    decreases s.len(),
{
    if s.len() == 0 {
        seq![Seq::empty()]
    } else if s.last() == SEPARATOR {
        pieces(s.drop_last()).push(Seq::empty())
    } else {
        let before = pieces(s.drop_last());
        before.drop_last().push(before.last().push(s.last()))
    }
}

/// Whether the piece at place `index` is a component: empty pieces are not,
/// and `.` is one only where it is the first piece.
pub open spec fn counts(index: int, piece: Seq<u8>) -> bool {
    piece.len() > 0 && (piece != cur_part() || index == 0)
}

/// The pieces that are components, in order.
pub open spec fn kept(ps: Seq<Seq<u8>>) -> Seq<Seq<u8>>
    decreases ps.len(),
{
    if ps.len() == 0 {
        Seq::empty()
    } else if counts(ps.len() - 1, ps.last()) {
        kept(ps.drop_last()).push(ps.last())
    } else {
        kept(ps.drop_last())
    }
}

/// The path that the bytes `s` spell.
pub open spec fn parsed(s: Seq<u8>) -> Seq<Seq<u8>> {
    if s.len() > 0 && s[0] == SEPARATOR {
        seq![root_part()] + kept(pieces(s))
    } else {
        kept(pieces(s))
    }
}

/// The bytes that spell the path `p`: its components with one separator
/// between two of them, and none behind the root.
pub open spec fn rendered(p: Seq<Seq<u8>>) -> Seq<u8>
    decreases p.len(),
{
    if p.len() == 0 {
        Seq::empty()
    } else if p.len() == 1 {
        p[0]
    } else if p.len() == 2 && p[0] == root_part() {
        p[0] + p[1]
    } else {
        rendered(p.drop_last()).push(SEPARATOR) + p.last()
    }
}

/// Adding one item to a list adds its view to the list's view.
pub proof fn lemma_views_push<T: View>(items: Seq<T>, item: T)
    ensures
        views(items.push(item)) == views(items).push(item@),
{
    assert(views(items.push(item)) =~= views(items).push(item@));
}

/// Whether two byte strings are equal.
pub fn bytes_equal(a: &[u8], b: &[u8]) -> (same: bool)
    ensures
        same == (a@ == b@),
{
    if a.len() != b.len() {
        return false;
    }
    let mut i: usize = 0;
    while i < a.len()
        invariant
            a.len() == b.len(),
            i <= a.len(),
            forall|j: int| 0 <= j < i ==> a@[j] == b@[j],
        decreases a.len() - i,
    {
        if a[i] != b[i] {
            return false;
        }
        i += 1;
    }
    assert(a@ =~= b@);
    true
}

/// A copy of a byte string.
pub fn copy_bytes(a: &[u8]) -> (copy: Vec<u8>)
    ensures
        copy@ == a@,
{
    let mut copy: Vec<u8> = Vec::new();
    let mut i: usize = 0;
    while i < a.len()
        invariant
            i <= a.len(),
            copy@ == a@.take(i as int),
        decreases a.len() - i,
    {
        copy.push(a[i]);
        assert(a@.take(i + 1) =~= a@.take(i as int).push(a@[i as int]));
        i += 1;
    }
    assert(a@.take(a.len() as int) =~= a@);
    copy
}

/// A copy of a list of byte strings.
pub fn copy_names(names: &Vec<Vec<u8>>) -> (copy: Vec<Vec<u8>>)
    ensures
        views(copy@) == views(names@),
{
    let mut copy: Vec<Vec<u8>> = Vec::new();
    let mut i: usize = 0;
    while i < names.len()
        invariant
            i <= names.len(),
            views(copy@) == views(names@).take(i as int),
        decreases names.len() - i,
    {
        let name = copy_bytes(names[i].as_slice());
        proof {
            lemma_views_push(copy@, name);
            assert(views(names@).take(i + 1) =~= views(names@).take(i as int).push(
                name@,
            ));
        }
        copy.push(name);
        i += 1;
    }
    assert(views(names@).take(names.len() as int) =~= views(names@));
    copy
}

/// Whether the byte string is the root component.
pub fn is_root_part(part: &[u8]) -> (yes: bool)
    ensures
        yes == (part@ == root_part()),
{
    let yes = part.len() == 1 && part[0] == SEPARATOR;
    assert(yes == (part@ =~= root_part()));
    yes
}

/// Whether the byte string is `.`.
pub fn is_cur_part(part: &[u8]) -> (yes: bool)
    ensures
        yes == (part@ == cur_part()),
{
    let yes = part.len() == 1 && part[0] == DOT;
    assert(yes == (part@ =~= cur_part()));
    yes
}

/// Whether the byte string is `..`.
pub fn is_up_part(part: &[u8]) -> (yes: bool)
    ensures
        yes == (part@ == up_part()),
{
    let yes = part.len() == 2 && part[0] == DOT && part[1] == DOT;
    assert(yes == (part@ =~= up_part()));
    yes
}

/// Whether the byte string is a name: not empty, without separator.
pub fn is_name_part(part: &[u8]) -> (yes: bool)
    ensures
        yes == is_name(part@),
{
    if part.len() == 0 {
        return false;
    }
    let mut i: usize = 0;
    while i < part.len()
        invariant
            i <= part.len(),
            forall|j: int| 0 <= j < i ==> part@[j] != SEPARATOR,
        decreases part.len() - i,
    {
        if part[i] == SEPARATOR {
            return false;
        }
        i += 1;
    }
    true
}

/// A path of the host.
#[derive(Debug, PartialEq, Eq)]
pub struct HostPath {
    parts: Vec<Vec<u8>>,
}

impl View for HostPath {
    type V = Seq<Seq<u8>>;

    closed spec fn view(&self) -> Seq<Seq<u8>> {
        views(self.parts@)
    }
}

impl Clone for HostPath {
    fn clone(&self) -> (p: HostPath)
        ensures
            p@ == self@,
    {
        HostPath { parts: copy_names(&self.parts) }
    }
}

impl HostPath {
    /// The path without components.
    pub fn empty() -> (p: HostPath)
        ensures
            p@ == Seq::<Seq<u8>>::empty(),
    {
        let p = HostPath { parts: Vec::new() };
        assert(p@ =~= Seq::<Seq<u8>>::empty());
        p
    }

    /// The root directory.
    pub fn root() -> (p: HostPath)
        ensures
            p@ == seq![root_part()],
    {
        let mut parts: Vec<Vec<u8>> = Vec::new();
        parts.push(vec![SEPARATOR]);
        let p = HostPath { parts };
        assert(p@ =~~= seq![root_part()]);
        p
    }

    /// The path with the given components, as they are.
    pub fn from_parts(parts: Vec<Vec<u8>>) -> (p: HostPath)
        ensures
            p@ == views(parts@),
    {
        HostPath { parts }
    }

    /// The path of one name; the empty path where there is none.
    pub fn from_name(name: Option<&Vec<u8>>) -> (p: HostPath)
        ensures
            p@ == name_path(
                match name {
                    Some(n) => Some(n@),
                    None => None,
                },
            ),
    {
        let mut parts: Vec<Vec<u8>> = Vec::new();
        match name {
            Some(n) => {
                parts.push(copy_bytes(n.as_slice()));
                let p = HostPath { parts };
                assert(p@ =~~= seq![n@]);
                p
            },
            None => {
                let p = HostPath { parts };
                assert(p@ =~= Seq::<Seq<u8>>::empty());
                p
            },
        }
    }

    /// The path that the bytes spell: the root where they begin with a
    /// separator, then every piece between separators that is not empty and
    /// is not a `.` behind the first piece.
    pub fn from_bytes(s: &[u8]) -> (p: HostPath)
        ensures
            p@ == parsed(s@),
            well_formed(p@),
    {
        let mut parts: Vec<Vec<u8>> = Vec::new();
        if s.len() > 0 && s[0] == SEPARATOR {
            parts.push(vec![SEPARATOR]);
        }
        let ghost lead = views(parts@);
        assert(lead =~~= if s.len() > 0 && s[0] == SEPARATOR {
            seq![root_part()]
        } else {
            Seq::empty()
        });
        let ghost mut done: Seq<Seq<u8>> = Seq::empty();
        let mut piece: Vec<u8> = Vec::new();
        let mut first = true;
        let mut i: usize = 0;
        assert(s@.take(0) =~= Seq::<u8>::empty());
        assert(done.push(piece@) =~= seq![Seq::<u8>::empty()]);
        assert(lead + kept(done) =~= lead);
        while i < s.len()
            invariant
                i <= s.len(),
                lead == if s.len() > 0 && s[0] == SEPARATOR {
                    seq![root_part()]
                } else {
                    Seq::<Seq<u8>>::empty()
                },
                pieces(s@.take(i as int)) == done.push(piece@),
                views(parts@) == lead + kept(done),
                first == (done.len() == 0),
                first && i > 0 ==> lead.len() == 0,
                first ==> parts@.len() == lead.len(),
                !piece@.contains(SEPARATOR),
                well_formed(views(parts@)),
            decreases s.len() - i,
        {
            let ghost before = s@.take(i as int);
            let ghost after = s@.take(i + 1);
            assert(after.drop_last() =~= before);
            assert(after.last() == s@[i as int]);
            if s[i] == SEPARATOR {
                proof {
                    assert(done.push(piece@).drop_last() =~= done);
                }
                if piece.len() > 0 && (first || !is_cur_part(piece.as_slice())) {
                    proof {
                        lemma_views_push(parts@, piece);
                        assert((lead + kept(done)).push(piece@) =~= lead + kept(done).push(
                            piece@,
                        ));
                        assert(piece@ != root_part()) by {
                            assert(root_part()[0] == SEPARATOR);
                        }
                    }
                    parts.push(piece);
                }
                proof {
                    done = done.push(piece@);
                }
                piece = Vec::new();
                first = false;
            } else {
                let ghost longer = piece@.push(s@[i as int]);
                assert(done.push(piece@).drop_last() =~= done);
                assert(!longer.contains(SEPARATOR)) by {
                    assert forall|j: int| 0 <= j < longer.len() implies longer[j] != SEPARATOR by {
                        if j < piece@.len() {
                            assert(piece@.contains(piece@[j]));
                        }
                    }
                }
                piece.push(s[i]);
            }
            i += 1;
        }
        assert(s@.take(s.len() as int) =~= s@);
        assert(done.push(piece@).drop_last() =~= done);
        if piece.len() > 0 && (first || !is_cur_part(piece.as_slice())) {
            proof {
                lemma_views_push(parts@, piece);
                assert((lead + kept(done)).push(piece@) =~= lead + kept(done).push(piece@));
                assert(piece@ != root_part()) by {
                    assert(root_part()[0] == SEPARATOR);
                }
            }
            parts.push(piece);
        }
        HostPath { parts }
    }

    /// The bytes that spell the path.
    pub fn to_bytes(&self) -> (s: Vec<u8>)
        ensures
            s@ == rendered(self@),
    {
        let mut out: Vec<u8> = Vec::new();
        let mut i: usize = 0;
        assert(self@.take(0) =~= Seq::<Seq<u8>>::empty());
        while i < self.parts.len()
            invariant
                i <= self.parts.len(),
                out@ == rendered(self@.take(i as int)),
            decreases self.parts.len() - i,
        {
            let ghost shorter = self@.take(i as int);
            let ghost longer = self@.take(i + 1);
            assert(longer.drop_last() =~= shorter);
            if i > 0 && !(i == 1 && is_root_part(self.parts[0].as_slice())) {
                out.push(SEPARATOR);
            }
            out.extend_from_slice(self.parts[i].as_slice());
            proof {
                if i == 0 {
                    assert(out@ =~= longer[0]);
                } else if i == 1 && longer[0] == root_part() {
                    assert(shorter =~= seq![longer[0]]);
                    assert(out@ =~= longer[0] + longer[1]);
                }
            }
            i += 1;
        }
        assert(self@.take(self.parts.len() as int) =~= self@);
        out
    }

    /// The number of components.
    pub fn len(&self) -> (n: usize)
        ensures
            n == self@.len(),
    {
        self.parts.len()
    }

    /// The component at place `index`.
    pub fn part(&self, index: usize) -> (part: &Vec<u8>)
        requires
            index < self@.len(),
        ensures
            part@ == self@[index as int],
    {
        &self.parts[index]
    }

    /// Whether the path begins at the root directory.
    pub fn is_absolute(&self) -> (yes: bool)
        ensures
            yes == is_absolute(self@),
    {
        self.parts.len() > 0 && is_root_part(self.parts[0].as_slice())
    }

    /// Whether the two paths have the same components.
    pub fn same(&self, other: &HostPath) -> (yes: bool)
        ensures
            yes == (self@ == other@),
    {
        if self.parts.len() != other.parts.len() {
            assert(self@.len() != other@.len());
            return false;
        }
        let mut i: usize = 0;
        while i < self.parts.len()
            invariant
                self.parts.len() == other.parts.len(),
                i <= self.parts.len(),
                forall|j: int| 0 <= j < i ==> self@[j] == other@[j],
            decreases self.parts.len() - i,
        {
            if !bytes_equal(self.parts[i].as_slice(), other.parts[i].as_slice()) {
                assert(self@[i as int] != other@[i as int]);
                return false;
            }
            i += 1;
        }
        assert(self@ =~= other@);
        true
    }

    /// Whether the path begins with all the components of `base`.
    pub fn starts_with(&self, base: &HostPath) -> (yes: bool)
        ensures
            yes == base@.is_prefix_of(self@),
    {
        if base.parts.len() > self.parts.len() {
            return false;
        }
        let mut i: usize = 0;
        while i < base.parts.len()
            invariant
                base.parts.len() <= self.parts.len(),
                i <= base.parts.len(),
                forall|j: int| 0 <= j < i ==> self@[j] == base@[j],
            decreases base.parts.len() - i,
        {
            if !bytes_equal(self.parts[i].as_slice(), base.parts[i].as_slice()) {
                assert(self@[i as int] != base@[i as int]);
                return false;
            }
            i += 1;
        }
        assert(base@ =~= self@.subrange(0, base@.len() as int));
        true
    }

    /// The components from place `from` on.
    pub fn skip(&self, from: usize) -> (p: HostPath)
        requires
            from <= self@.len(),
        ensures
            p@ == self@.skip(from as int),
    {
        let mut parts: Vec<Vec<u8>> = Vec::new();
        let mut i: usize = from;
        while i < self.parts.len()
            invariant
                from <= i <= self.parts.len(),
                views(parts@) == self@.subrange(from as int, i as int),
            decreases self.parts.len() - i,
        {
            let name = copy_bytes(self.parts[i].as_slice());
            proof {
                lemma_views_push(parts@, name);
                assert(self@.subrange(from as int, i + 1) =~= self@.subrange(
                    from as int,
                    i as int,
                ).push(name@));
            }
            parts.push(name);
            i += 1;
        }
        let p = HostPath { parts };
        assert(p@ =~= self@.skip(from as int));
        p
    }

    /// The first `count` components.
    pub fn take(&self, count: usize) -> (p: HostPath)
        requires
            count <= self@.len(),
        ensures
            p@ == self@.take(count as int),
    {
        let mut parts: Vec<Vec<u8>> = Vec::new();
        let mut i: usize = 0;
        while i < count
            invariant
                i <= count <= self.parts.len(),
                views(parts@) == self@.take(i as int),
            decreases count - i,
        {
            let name = copy_bytes(self.parts[i].as_slice());
            proof {
                lemma_views_push(parts@, name);
                assert(self@.take(i + 1) =~= self@.take(i as int).push(name@));
            }
            parts.push(name);
            i += 1;
        }
        HostPath { parts }
    }

    /// What is left behind `base`, where the path begins with `base`.
    pub fn strip_prefix(&self, base: &HostPath) -> (rest: Option<HostPath>)
        ensures
            match rest {
                Some(r) => stripped(self@, base@) == Some(r@),
                None => stripped(self@, base@).is_none(),
            },
    {
        if self.starts_with(base) {
            Some(self.skip(base.len()))
        } else {
            None
        }
    }

    /// The path without its last component, where it has a parent.
    pub fn parent(&self) -> (parent: Option<HostPath>)
        ensures
            match parent {
                Some(p) => parent_of(self@) == Some(p@),
                None => parent_of(self@).is_none(),
            },
    {
        let n = self.parts.len();
        if n == 0 || is_root_part(self.parts[n - 1].as_slice()) {
            None
        } else {
            Some(self.take(n - 1))
        }
    }

    /// The last component, where it is a normal name.
    pub fn file_name(&self) -> (name: Option<Vec<u8>>)
        ensures
            match name {
                Some(n) => name_of(self@) == Some(n@),
                None => name_of(self@).is_none(),
            },
    {
        let n = self.parts.len();
        if n == 0 {
            return None;
        }
        let last = self.parts[n - 1].as_slice();
        if is_name_part(last) && !is_cur_part(last) && !is_up_part(last) {
            Some(copy_bytes(last))
        } else {
            None
        }
    }

    /// `other` taken relative to this path.
    pub fn join(&self, other: &HostPath) -> (p: HostPath)
        ensures
            p@ == joined(self@, other@),
    {
        if other.is_absolute() || self.parts.len() == 0 {
            return other.clone();
        }
        let from: usize = if other.parts.len() > 0 && is_cur_part(other.parts[0].as_slice()) {
            1
        } else {
            0
        };
        let mut parts = copy_names(&self.parts);
        let mut i: usize = from;
        while i < other.parts.len()
            invariant
                from <= i <= other.parts.len(),
                views(parts@) == self@ + other@.subrange(from as int, i as int),
            decreases other.parts.len() - i,
        {
            let name = copy_bytes(other.parts[i].as_slice());
            proof {
                lemma_views_push(parts@, name);
                assert(self@ + other@.subrange(from as int, i + 1) =~= (self@ + other@.subrange(
                    from as int,
                    i as int,
                )).push(name@));
            }
            parts.push(name);
            i += 1;
        }
        let p = HostPath { parts };
        assert(other@.subrange(from as int, other@.len() as int) =~= without_leading_cur(other@));
        p
    }

    /// The components of this path followed by those of `other`, as they
    /// are.
    pub fn concat(&self, other: &HostPath) -> (p: HostPath)
        ensures
            p@ == self@ + other@,
    {
        let mut parts = copy_names(&self.parts);
        let mut i: usize = 0;
        assert(other@.take(0) =~= Seq::<Seq<u8>>::empty());
        assert(self@ + other@.take(0) =~= self@);
        while i < other.parts.len()
            invariant
                i <= other.parts.len(),
                views(parts@) == self@ + other@.take(i as int),
            decreases other.parts.len() - i,
        {
            let name = copy_bytes(other.parts[i].as_slice());
            proof {
                lemma_views_push(parts@, name);
                assert(self@ + other@.take(i + 1) =~= (self@ + other@.take(i as int)).push(name@));
            }
            parts.push(name);
            i += 1;
        }
        assert(other@.take(other.parts.len() as int) =~= other@);
        HostPath { parts }
    }

    /// This path followed by one name.
    pub fn child(&self, name: &Vec<u8>) -> (p: HostPath)
        ensures
            p@ == joined(self@, seq![name@]),
    {
        let tail = HostPath::from_name(Some(name));
        self.join(&tail)
    }
}

} // verus!
