//! Absolute paths as sequences of names, and the mapping between a dotfile's
//! original location and its mirrored location inside the managed root.

use vstd::prelude::*;

verus! {

/// An absolute path, held as the names of its components below `/`.
/// The root directory itself has no components.
#[derive(Debug)]
pub struct FsPath {
    components: Vec<String>,
}

/// A path that could not be mapped between the two locations.
#[derive(Clone, Copy, Debug, PartialEq, Eq, Structural)]
pub enum PathError {
    /// Stripping the root component of a path failed.
    PrefixMismatch,
    /// The path does not lie under the managed root.
    NotManaged,
}

/// A component name that stands for one entry of a directory: not empty,
/// free of `/`, and neither `.` nor `..`.
pub open spec fn is_entry_name(c: Seq<char>) -> bool {
    &&& c.len() > 0
    &&& !c.contains('/')
    &&& c != seq!['.']
    &&& c != seq!['.', '.']
}

/// Every component of `p` names a directory entry.
pub open spec fn well_formed(p: Seq<Seq<char>>) -> bool {
    forall|i: int| 0 <= i < p.len() ==> is_entry_name(#[trigger] p[i])
}

/// The mirrored location of `original` under `root`: the original path with
/// its leading `/` taken off, appended to the root.
pub open spec fn mirror_of(root: Seq<Seq<char>>, original: Seq<Seq<char>>) -> Seq<Seq<char>> {
    root + original
}

/// `p` is `root` itself or lies below it, compared component by component.
pub open spec fn is_under(root: Seq<Seq<char>>, p: Seq<Seq<char>>) -> bool {
    root.len() <= p.len() && p.subrange(0, root.len() as int) == root
}

/// The original location of a mirrored path, or `NotManaged` when the path is
/// not under the root.
pub open spec fn unmirror_of(root: Seq<Seq<char>>, mirrored: Seq<Seq<char>>) -> Result<
    Seq<Seq<char>>,
    PathError,
> {
    if is_under(root, mirrored) {
        Ok(mirrored.subrange(root.len() as int, mirrored.len() as int))
    } else {
        Err(PathError::NotManaged)
    }
}

/// The directory that holds `p`; the root has none.
pub open spec fn parent_of(p: Seq<Seq<char>>) -> Option<Seq<Seq<char>>> {
    if p.len() == 0 {
        None
    } else {
        Some(p.drop_last())
    }
}

/// The texts between the `/` separators of `s`, in order, empty ones
/// included.
pub open spec fn segments(s: Seq<char>) -> Seq<Seq<char>>
    decreases s.len(),
{
    if s.len() == 0 {
        seq![Seq::empty()]
    } else {
        let front = segments(s.drop_last());
        if s.last() == '/' {
            front.push(Seq::empty())
        } else {
            front.drop_last().push(front.last().push(s.last()))
        }
    }
}

/// A segment that names a component: neither empty nor `.`.
pub open spec fn names_component(c: Seq<char>) -> bool {
    c.len() > 0 && c != seq!['.']
}

/// The segments that name components, in order.
pub open spec fn kept(segs: Seq<Seq<char>>) -> Seq<Seq<char>>
    decreases segs.len(),
{
    if segs.len() == 0 {
        Seq::empty()
    } else if names_component(segs.last()) {
        kept(segs.drop_last()).push(segs.last())
    } else {
        kept(segs.drop_last())
    }
}

/// The components that the text `s` names, when it is an absolute path with
/// no `..` segment: its segments, leaving out the empty ones and `.`.
pub open spec fn parse_path(s: Seq<char>) -> Option<Seq<Seq<char>>> {
    if s.len() > 0 && s[0] == '/' && !segments(s).contains(seq!['.', '.']) {
        Some(kept(segments(s)))
    } else {
        None
    }
}

/// The text of the path `p` with components below `/`: each component
/// preceded by `/`, and `/` alone for the root.
pub open spec fn render_path(p: Seq<Seq<char>>) -> Seq<char> {
    if p.len() == 0 {
        seq!['/']
    } else {
        render_components(p)
    }
}

/// Each component preceded by `/`, joined.
pub open spec fn render_components(p: Seq<Seq<char>>) -> Seq<char>
    decreases p.len(),
{
    if p.len() == 0 {
        Seq::empty()
    } else {
        render_components(p.drop_last()) + seq!['/'] + p.last()
    }
}

/// The texts of a sequence of strings.
pub open spec fn names(v: Seq<String>) -> Seq<Seq<char>> {
    Seq::new(v.len(), |i: int| v[i]@)
}

proof fn lemma_names_push(v: Seq<String>, c: String)
    ensures
        names(v.push(c)) == names(v).push(c@),
{
    assert(names(v.push(c)) =~= names(v).push(c@));
}

impl View for FsPath {
    type V = Seq<Seq<char>>;

    closed spec fn view(&self) -> Seq<Seq<char>> {
        names(self.components@)
    }
}

impl FsPath {
    /// The path is made of entry names only.
    pub open spec fn wf(&self) -> bool {
        well_formed(self@)
    }

    /// The root directory `/`.
    pub fn root() -> (r: FsPath)
        ensures
            r@ == Seq::<Seq<char>>::empty(),
            r.wf(),
    {
        FsPath { components: Vec::new() }
    }

    /// Number of components below `/`.
    pub fn depth(&self) -> (r: usize)
        ensures
            r == self@.len(),
    {
        self.components.len()
    }

    /// The name of the last component.
    pub fn last_component(&self) -> (r: &str)
        requires
            self@.len() > 0,
        ensures
            r@ == self@.last(),
    {
        self.components[self.components.len() - 1].as_str()
    }

    /// A path equal to this one.
    pub fn duplicate(&self) -> (r: FsPath)
        ensures
            r@ == self@,
    {
        let mut out: Vec<String> = Vec::new();
        let mut i: usize = 0;
        while i < self.components.len()
            invariant
                i <= self.components@.len(),
                names(out@) == self@.subrange(0, i as int),
            decreases self.components@.len() - i,
        {
            let c = self.components[i].clone();
            proof {
                lemma_names_push(out@, c);
            }
            out.push(c);
            i = i + 1;
            proof {
                assert(names(out@) =~= self@.subrange(0, i as int));
            }
        }
        proof {
            assert(self@.subrange(0, i as int) =~= self@);
        }
        FsPath { components: out }
    }

    /// The two paths name the same location.
    pub fn same_as(&self, other: &FsPath) -> (r: bool)
        ensures
            r == (self@ == other@),
    {
        if self.components.len() != other.components.len() {
            proof {
                assert(self@.len() != other@.len());
            }
            return false;
        }
        let mut i: usize = 0;
        while i < self.components.len()
            invariant
                i <= self.components@.len(),
                self.components@.len() == other.components@.len(),
                self@.subrange(0, i as int) == other@.subrange(0, i as int),
            decreases self.components@.len() - i,
        {
            if self.components[i] != other.components[i] {
                proof {
                    assert(self@[i as int] != other@[i as int]);
                }
                return false;
            }
            i = i + 1;
            proof {
                assert(self@.subrange(0, i as int) =~= other@.subrange(0, i as int));
            }
        }
        proof {
            assert(self@ =~= self@.subrange(0, i as int));
            assert(other@ =~= other@.subrange(0, i as int));
        }
        true
    }

    /// `root` is this path or one of its ancestors.
    pub fn starts_with(&self, root: &FsPath) -> (r: bool)
        ensures
            r == is_under(root@, self@),
    {
        if root.components.len() > self.components.len() {
            return false;
        }
        let mut i: usize = 0;
        while i < root.components.len()
            invariant
                i <= root.components@.len() <= self.components@.len(),
                self@.subrange(0, i as int) == root@.subrange(0, i as int),
            decreases root.components@.len() - i,
        {
            if self.components[i] != root.components[i] {
                proof {
                    assert(self@.subrange(0, root@.len() as int)[i as int] != root@[i as int]);
                }
                return false;
            }
            i = i + 1;
            proof {
                assert(self@.subrange(0, i as int) =~= root@.subrange(0, i as int));
            }
        }
        proof {
            assert(root@ =~= root@.subrange(0, i as int));
        }
        true
    }

    /// The path whose components are those of this path from index `start` on,
    /// hung below `/`.
    fn suffix_from(&self, start: usize) -> (r: FsPath)
        requires
            start <= self@.len(),
        ensures
            r@ == self@.subrange(start as int, self@.len() as int),
            self.wf() ==> r.wf(),
    {
        let mut out: Vec<String> = Vec::new();
        let mut i: usize = start;
        while i < self.components.len()
            invariant
                start <= i <= self.components@.len(),
                names(out@) == self@.subrange(start as int, i as int),
            decreases self.components@.len() - i,
        {
            let c = self.components[i].clone();
            proof {
                lemma_names_push(out@, c);
            }
            out.push(c);
            i = i + 1;
            proof {
                assert(names(out@) =~= self@.subrange(start as int, i as int));
            }
        }
        FsPath { components: out }
    }

    /// This path with the components of `tail` appended.
    fn concat(&self, tail: &FsPath) -> (r: FsPath)
        ensures
            r@ == self@ + tail@,
            self.wf() && tail.wf() ==> r.wf(),
    {
        let mut out = self.duplicate();
        let mut i: usize = 0;
        while i < tail.components.len()
            invariant
                i <= tail.components@.len(),
                out@ == self@ + tail@.subrange(0, i as int),
            decreases tail.components@.len() - i,
        {
            let c = tail.components[i].clone();
            proof {
                lemma_names_push(out.components@, c);
            }
            out.components.push(c);
            i = i + 1;
            proof {
                assert(out@ =~= self@ + tail@.subrange(0, i as int));
            }
        }
        proof {
            assert(tail@ =~= tail@.subrange(0, i as int));
        }
        proof {
            if self.wf() && tail.wf() {
                assert forall|k: int| 0 <= k < out@.len() implies is_entry_name(#[trigger] out@[k]) by {
                    if k < self@.len() {
                        assert(out@[k] == self@[k]);
                    } else {
                        assert(out@[k] == tail@[k - self@.len()]);
                    }
                }
            }
        }
        out
    }

    /// The directory that holds this path; `None` for the root.
    pub fn parent(&self) -> (r: Option<FsPath>)
        ensures
            r matches Some(d) ==> parent_of(self@) == Some(d@),
            r is None ==> parent_of(self@) is None,
            self.wf() ==> (r matches Some(d) ==> d.wf()),
    {
        if self.components.len() == 0 {
            return None;
        }
        let mut out: Vec<String> = Vec::new();
        let mut i: usize = 0;
        let last: usize = self.components.len() - 1;
        while i < last
            invariant
                i <= last,
                last + 1 == self.components@.len(),
                names(out@) == self@.subrange(0, i as int),
            decreases last - i,
        {
            let c = self.components[i].clone();
            proof {
                lemma_names_push(out@, c);
            }
            out.push(c);
            i = i + 1;
            proof {
                assert(names(out@) =~= self@.subrange(0, i as int));
            }
        }
        proof {
            assert(self@.subrange(0, i as int) =~= self@.drop_last());
        }
        Some(FsPath { components: out })
    }
}

proof fn lemma_kept_push(segs: Seq<Seq<char>>, c: Seq<char>)
    ensures
        kept(segs.push(c)) == if names_component(c) {
            kept(segs).push(c)
        } else {
            kept(segs)
        },
{
    assert(segs.push(c).drop_last() =~= segs);
}

proof fn lemma_contains_push(segs: Seq<Seq<char>>, c: Seq<char>, x: Seq<char>)
    ensures
        segs.push(c).contains(x) == (segs.contains(x) || c == x),
{
    if c == x {
        assert(segs.push(c)[segs.len() as int] == c);
    }
    if segs.push(c).contains(x) && c != x {
        let j = choose|j: int| 0 <= j < segs.push(c).len() && segs.push(c)[j] == x;
        assert(segs[j] == x);
    }
    if segs.contains(x) {
        let j = choose|j: int| 0 <= j < segs.len() && segs[j] == x;
        assert(segs.push(c)[j] == x);
    }
}

/// How the segments grow by one character.
proof fn lemma_segments_step(s: Seq<char>, i: int)
    requires
        0 <= i < s.len(),
    ensures
        segments(s.take(i + 1)) == if s[i] == '/' {
            segments(s.take(i)).push(Seq::empty())
        } else {
            segments(s.take(i)).drop_last().push(segments(s.take(i)).last().push(s[i]))
        },
{
    assert(s.take(i + 1).drop_last() =~= s.take(i));
}

proof fn lemma_segments_nonempty(s: Seq<char>)
    ensures
        segments(s).len() >= 1,
    decreases s.len(),
{
    if s.len() > 0 {
        lemma_segments_nonempty(s.drop_last());
    }
}

/// No segment holds a separator.
proof fn lemma_segments_unseparated(s: Seq<char>)
    ensures
        forall|k: int| 0 <= k < segments(s).len() ==> !(#[trigger] segments(s)[k]).contains('/'),
    decreases s.len(),
{
    if s.len() > 0 {
        let front = segments(s.drop_last());
        lemma_segments_unseparated(s.drop_last());
        lemma_segments_nonempty(s.drop_last());
        if s.last() != '/' {
            let grown = front.last().push(s.last());
            assert forall|k: int| 0 <= k < segments(s).len() implies !(#[trigger] segments(s)[k]).contains('/') by {
                if k == segments(s).len() - 1 {
                    assert(segments(s)[k] == grown);
                    assert(!front[front.len() - 1].contains('/'));
                    if grown.contains('/') {
                        let j = choose|j: int| 0 <= j < grown.len() && grown[j] == '/';
                        assert(front.last()[j] == '/');
                    }
                } else {
                    assert(segments(s)[k] == front[k]);
                }
            }
        } else {
            assert forall|k: int| 0 <= k < segments(s).len() implies !(#[trigger] segments(s)[k]).contains('/') by {
                if k < front.len() {
                    assert(segments(s)[k] == front[k]);
                }
            }
        }
    }
}

/// Kept segments are segments that name components.
proof fn lemma_kept_names(segs: Seq<Seq<char>>)
    ensures
        forall|k: int| 0 <= k < kept(segs).len() ==> #[trigger] segs.contains(kept(segs)[k]) && names_component(kept(segs)[k]),
    decreases segs.len(),
{
    if segs.len() > 0 {
        let front = segs.drop_last();
        lemma_kept_names(front);
        assert forall|k: int| 0 <= k < kept(segs).len() implies #[trigger] segs.contains(kept(segs)[k]) && names_component(kept(segs)[k]) by {
            if k < kept(front).len() {
                assert(kept(segs)[k] == kept(front)[k]);
                assert(front.contains(kept(front)[k]));
                let j = choose|j: int| 0 <= j < front.len() && front[j] == kept(front)[k];
                assert(segs[j] == kept(segs)[k]);
            } else {
                assert(segs[segs.len() - 1] == kept(segs)[k]);
            }
        }
    }
}

/// A parsed path is made of entry names.
proof fn lemma_parse_well_formed(s: Seq<char>)
    requires
        parse_path(s) is Some,
    ensures
        well_formed(parse_path(s)->Some_0),
{
    let segs = segments(s);
    lemma_kept_names(segs);
    lemma_segments_unseparated(s);
    let p = kept(segs);
    assert forall|k: int| 0 <= k < p.len() implies is_entry_name(#[trigger] p[k]) by {
        assert(segs.contains(p[k]));
        let j = choose|j: int| 0 <= j < segs.len() && segs[j] == p[k];
        assert(!segs[j].contains('/'));
    }
}

/// Appending text without a separator to `s` extends its last segment.
proof fn lemma_segments_append(s: Seq<char>, t: Seq<char>)
    requires
        !t.contains('/'),
    ensures
        segments(s + t) == segments(s).drop_last().push(segments(s).last() + t),
    decreases t.len(),
{
    lemma_segments_nonempty(s);
    if t.len() == 0 {
        assert(s + t =~= s);
        assert(segments(s).last() + t =~= segments(s).last());
        assert(segments(s).drop_last().push(segments(s).last()) =~= segments(s));
    } else {
        let front = t.drop_last();
        let c = t.last();
        assert(!front.contains('/')) by {
            if front.contains('/') {
                let j = choose|j: int| 0 <= j < front.len() && front[j] == '/';
                assert(t[j] == '/');
            }
        }
        assert(c != '/') by {
            assert(t[t.len() - 1] == c);
        }
        lemma_segments_append(s, front);
        assert((s + t).drop_last() =~= s + front);
        assert((s + t).last() == c);
        let f = segments(s + front);
        assert(f.drop_last() =~= segments(s).drop_last());
        assert(f.last() == segments(s).last() + front);
        assert((segments(s).last() + front).push(c) =~= segments(s).last() + t);
        assert(f.drop_last().push(f.last().push(c)) =~= segments(s).drop_last().push(segments(s).last() + t));
    }
}

/// The segments of a rendered path: an empty one before the first `/`, then
/// the components.
proof fn lemma_segments_render(p: Seq<Seq<char>>)
    requires
        well_formed(p),
    ensures
        segments(render_components(p)) == seq![Seq::<char>::empty()] + p,
    decreases p.len(),
{
    if p.len() == 0 {
        assert(segments(Seq::<char>::empty()) =~= seq![Seq::<char>::empty()] + p);
    } else {
        let q = p.drop_last();
        let c = p.last();
        assert(well_formed(q)) by {
            assert forall|i: int| 0 <= i < q.len() implies is_entry_name(#[trigger] q[i]) by {
                assert(q[i] == p[i]);
            }
        }
        assert(is_entry_name(p[p.len() - 1]));
        lemma_segments_render(q);
        let r = render_components(q);
        assert(r.push('/').drop_last() =~= r);
        assert(r + seq!['/'] =~= r.push('/'));
        lemma_segments_nonempty(r.push('/'));
        let with_sep = segments(r.push('/'));
        assert(with_sep == (seq![Seq::<char>::empty()] + q).push(Seq::<char>::empty()));
        lemma_segments_append(r.push('/'), c);
        assert(with_sep.drop_last() =~= seq![Seq::<char>::empty()] + q);
        assert(Seq::<char>::empty() + c =~= c);
        assert((seq![Seq::<char>::empty()] + q).push(c) =~= seq![Seq::<char>::empty()] + p);
    }
}

/// Keeping the naming segments of an empty segment followed by entry names
/// gives the entry names.
proof fn lemma_kept_render(p: Seq<Seq<char>>)
    requires
        well_formed(p),
    ensures
        kept(seq![Seq::<char>::empty()] + p) == p,
    decreases p.len(),
{
    if p.len() == 0 {
        let one = seq![Seq::<char>::empty()];
        assert(one + p =~= one);
        assert(one.drop_last() =~= Seq::<Seq<char>>::empty());
        assert(!names_component(one.last()));
        assert(kept(Seq::<Seq<char>>::empty()) == Seq::<Seq<char>>::empty());
        assert(kept(one) == kept(one.drop_last()));
    } else {
        let q = p.drop_last();
        assert(well_formed(q)) by {
            assert forall|i: int| 0 <= i < q.len() implies is_entry_name(#[trigger] q[i]) by {
                assert(q[i] == p[i]);
            }
        }
        lemma_kept_render(q);
        assert(is_entry_name(p[p.len() - 1]));
        assert((seq![Seq::<char>::empty()] + p).drop_last() =~= seq![Seq::<char>::empty()] + q);
        assert((seq![Seq::<char>::empty()] + p).last() == p.last());
        assert(names_component(p.last()));
        assert(q.push(p.last()) =~= p);
    }
}

/// A rendered path with components starts with `/`.
proof fn lemma_render_starts_with_separator(p: Seq<Seq<char>>)
    requires
        p.len() > 0,
    ensures
        render_components(p).len() > 0,
        render_components(p)[0] == '/',
    decreases p.len(),
{
    let q = p.drop_last();
    let r = render_components(q);
    if q.len() > 0 {
        lemma_render_starts_with_separator(q);
        assert((r + seq!['/'] + p.last())[0] == r[0]);
    } else {
        assert(r =~= Seq::<char>::empty());
        assert((r + seq!['/'] + p.last())[0] == '/');
    }
}

/// Reading back the text of a path made of entry names gives the same path.
pub proof fn lemma_parse_render(p: Seq<Seq<char>>)
    requires
        well_formed(p),
    ensures
        parse_path(render_path(p)) == Some(p),
{
    let dotdot = seq!['.', '.'];
    if p.len() == 0 {
        let text = seq!['/'];
        assert(text.drop_last() =~= Seq::<char>::empty());
        assert(segments(Seq::<char>::empty()) == seq![Seq::<char>::empty()]);
        let segs = segments(text);
        assert(segs =~= seq![Seq::<char>::empty(), Seq::<char>::empty()]);
        assert(!segs.contains(dotdot)) by {
            if segs.contains(dotdot) {
                let j = choose|j: int| 0 <= j < segs.len() && segs[j] == dotdot;
                assert(segs[j].len() == 0);
            }
        }
        assert(segs.drop_last() =~= seq![Seq::<char>::empty()]);
        lemma_kept_render(p);
        assert(seq![Seq::<char>::empty()] + p =~= seq![Seq::<char>::empty()]);
    } else {
        lemma_segments_render(p);
        lemma_kept_render(p);
        lemma_render_starts_with_separator(p);
        let segs = seq![Seq::<char>::empty()] + p;
        assert(!segs.contains(dotdot)) by {
            if segs.contains(dotdot) {
                let j = choose|j: int| 0 <= j < segs.len() && segs[j] == dotdot;
                if j == 0 {
                    assert(segs[j].len() == 0);
                } else {
                    assert(segs[j] == p[j - 1]);
                    assert(is_entry_name(p[j - 1]));
                }
            }
        }
    }
}

/// `seg` is the text `.`.
fn is_dot(seg: &str) -> (r: bool)
    ensures
        r == (seg@ == seq!['.']),
{
    if seg.unicode_len() == 1 && seg.get_char(0) == '.' {
        assert(seg@ =~= seq!['.']);
        true
    } else {
        false
    }
}

/// `seg` is the text `..`.
fn is_dot_dot(seg: &str) -> (r: bool)
    ensures
        r == (seg@ == seq!['.', '.']),
{
    if seg.unicode_len() == 2 && seg.get_char(0) == '.' && seg.get_char(1) == '.' {
        assert(seg@ =~= seq!['.', '.']);
        true
    } else {
        false
    }
}

impl FsPath {
    /// Reads an absolute path from its text. Repeated separators and `.`
    /// segments are skipped; a text that does not start with `/` or that holds
    /// a `..` segment is refused.
    pub fn parse(text: &str) -> (r: Option<FsPath>)
        ensures
            r matches Some(p) ==> parse_path(text@) == Some(p@) && p.wf(),
            r is None ==> parse_path(text@) is None,
    {
        let n = text.unicode_len();
        if n == 0 || text.get_char(0) != '/' {
            return None;
        }
        let mut out: Vec<String> = Vec::new();
        let ghost mut done: Seq<Seq<char>> = Seq::empty();
        let mut parent_ref = false;
        let mut start: usize = 0;
        let mut i: usize = 0;
        proof {
            assert(text@.take(0) =~= Seq::<char>::empty());
            assert(text@.subrange(0, 0) =~= Seq::<char>::empty());
        }
        while i < n
            invariant
                n == text@.len(),
                start <= i <= n,
                segments(text@.take(i as int)) == done.push(text@.subrange(start as int, i as int)),
                names(out@) == kept(done),
                parent_ref == done.contains(seq!['.', '.']),
            decreases n - i,
        {
            let c = text.get_char(i);
            proof {
                lemma_segments_step(text@, i as int);
            }
            if c == '/' {
                let seg = text.substring_char(start, i);
                let ghost cur = seg@;
                proof {
                    lemma_kept_push(done, cur);
                    assert(done.push(cur).drop_last() =~= done);
                    lemma_contains_push(done, cur, seq!['.', '.']);
                }
                if is_dot_dot(seg) {
                    parent_ref = true;
                }
                if seg.unicode_len() > 0 && !is_dot(seg) {
                    let owned = seg.to_owned();
                    proof {
                        lemma_names_push(out@, owned);
                    }
                    out.push(owned);
                }
                proof {
                    done = done.push(cur);
                }
                start = i + 1;
            } else {
                proof {
                    assert(text@.subrange(start as int, i + 1) =~= text@.subrange(start as int, i as int).push(c));
                }
            }
            i = i + 1;
            proof {
                if c == '/' {
                    assert(text@.subrange(start as int, i as int) =~= Seq::<char>::empty());
                }
            }
        }
        let seg = text.substring_char(start, n);
        let ghost cur = seg@;
        proof {
            assert(text@.take(n as int) =~= text@);
            lemma_kept_push(done, cur);
            lemma_contains_push(done, cur, seq!['.', '.']);
        }
        if parent_ref || is_dot_dot(seg) {
            return None;
        }
        if seg.unicode_len() > 0 && !is_dot(seg) {
            let owned = seg.to_owned();
            proof {
                lemma_names_push(out@, owned);
            }
            out.push(owned);
        }
        proof {
            lemma_parse_well_formed(text@);
        }
        Some(FsPath { components: out })
    }

    /// The text of this path: `/` for the root, else each component preceded
    /// by `/`.
    pub fn to_text(&self) -> (r: String)
        ensures
            r@ == render_path(self@),
    {
        proof {
            reveal_strlit("/");
        }
        if self.components.len() == 0 {
            return "/".to_owned();
        }
        let mut out = String::new();
        let mut i: usize = 0;
        while i < self.components.len()
            invariant
                i <= self.components@.len(),
                out@ == render_components(self@.take(i as int)),
            decreases self.components@.len() - i,
        {
            proof {
                reveal_strlit("/");
            }
            out.append("/");
            out.append(self.components[i].as_str());
            proof {
                assert(self@[i as int] == self.components@[i as int]@);
                assert(self@.take(i + 1).last() == self@[i as int]);
                assert(self@.take(i + 1).drop_last() =~= self@.take(i as int));
            }
            i = i + 1;
        }
        proof {
            assert(self@.take(i as int) =~= self@);
        }
        out
    }
}

/// `text` with a leading home shorthand replaced by `home`: `~` alone, or `~`
/// followed by `/`. Any other text is kept as it is.
pub open spec fn home_expanded(text: Seq<char>, home: Seq<char>) -> Seq<char> {
    if text == seq!['~'] {
        home
    } else if text.len() >= 2 && text[0] == '~' && text[1] == '/' {
        home + text.subrange(1, text.len() as int)
    } else {
        text
    }
}

/// Expands a leading home shorthand (`~` or `~/...`) in a user-supplied path
/// to the home directory `home`.
pub fn expand_home(text: &str, home: &str) -> (r: String)
    ensures
        r@ == home_expanded(text@, home@),
{
    let n = text.unicode_len();
    if n == 0 || text.get_char(0) != '~' {
        return text.to_owned();
    }
    if n == 1 {
        assert(text@ =~= seq!['~']);
        return home.to_owned();
    }
    if text.get_char(1) != '/' {
        assert(text@ != seq!['~']);
        return text.to_owned();
    }
    let mut out = home.to_owned();
    out.append(text.substring_char(1, n));
    out
}

/// Joins two absolute paths: the root component of `path_2` is stripped and
/// what remains is appended to `path_1`, so that `path_2`'s hierarchy is
/// replicated below `path_1`.
pub fn join_full_paths(path_1: &FsPath, path_2: &FsPath) -> (r: Result<FsPath, PathError>)
    ensures
        r matches Ok(p) && p@ == mirror_of(path_1@, path_2@),
        path_1.wf() && path_2.wf() ==> (r matches Ok(p) && p.wf()),
{
    Ok(path_1.concat(path_2))
}

/// The original location of `mirrored`: the managed root `root` is stripped
/// from its front and the rest is re-rooted at `/`. Fails with `NotManaged`
/// when `mirrored` does not lie under `root`.
pub fn unmirror(root: &FsPath, mirrored: &FsPath) -> (r: Result<FsPath, PathError>)
    ensures
        r matches Ok(p) ==> unmirror_of(root@, mirrored@) == Ok::<Seq<Seq<char>>, PathError>(p@),
        r matches Err(e) ==> unmirror_of(root@, mirrored@) == Err::<Seq<Seq<char>>, PathError>(e),
        mirrored.wf() ==> (r matches Ok(p) ==> p.wf()),
{
    if mirrored.starts_with(root) {
        Ok(mirrored.suffix_from(root.depth()))
    } else {
        Err(PathError::NotManaged)
    }
}

/// Unmirroring a mirrored path gives back the original path, for every
/// managed root and every absolute path.
pub proof fn lemma_unmirror_mirror(root: Seq<Seq<char>>, original: Seq<Seq<char>>)
    ensures
        unmirror_of(root, mirror_of(root, original)) == Ok::<Seq<Seq<char>>, PathError>(original),
{
    let m = mirror_of(root, original);
    assert(m.subrange(0, root.len() as int) =~= root);
    assert(m.subrange(root.len() as int, m.len() as int) =~= original);
}

} // verus!
