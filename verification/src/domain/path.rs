//! Where an object sits in the tree: a sequence of segments, each followed by
//! a slash, so that `work/` is a prefix of `work/deep/` but not of `workshop/`.
//! The empty path is the root that every top-level object shares.

use vstd::prelude::*;

verus! {

/// A well-formed path text: empty, or non-empty segments each ended by `/`.
pub open spec fn path_ok(s: Seq<char>) -> bool {
    s.len() == 0 || (
        s.last() == '/'
        && s[0] != '/'
        && forall|i: int| 0 <= i < s.len() - 1 && #[trigger] s[i] == '/' ==> s[i + 1] != '/'
    )
}

/// The text a path is written as once its closing slash is supplied.
pub open spec fn normalized(t: Seq<char>) -> Seq<char> {
    if t.len() == 0 || t.last() == '/' {
        t
    } else {
        t.push('/')
    }
}

/// Where the last segment of `t` starts: just after its last slash, or at 0.
pub open spec fn seg_start(t: Seq<char>) -> int
    decreases t.len(),
{
    if t.len() == 0 {
        0
    } else if t.last() == '/' {
        t.len() as int
    } else {
        seg_start(t.drop_last())
    }
}

/// The path one level up; the root has none.
pub open spec fn parent_text(s: Seq<char>) -> Option<Seq<char>> {
    if s.len() == 0 {
        None
    } else {
        Some(s.subrange(0, seg_start(s.drop_last())))
    }
}

/// The last segment without its slash; the root's is empty.
pub open spec fn last_segment_text(s: Seq<char>) -> Seq<char> {
    if s.len() == 0 {
        Seq::empty()
    } else {
        s.subrange(seg_start(s.drop_last()), s.len() - 1)
    }
}

/// A segment a path can be extended by: not empty, no slash in it.
pub open spec fn segment_ok(seg: Seq<char>) -> bool {
    seg.len() > 0 && forall|i: int| 0 <= i < seg.len() ==> #[trigger] seg[i] != '/'
}

/// `base` extended by one segment.
pub open spec fn joined(base: Seq<char>, seg: Seq<char>) -> Seq<char> {
    base + seg + seq!['/']
}

/// Whether `p` sits at or under `scope`; everything sits under the root.
pub open spec fn within(p: Seq<char>, scope: Seq<char>) -> bool {
    scope.is_prefix_of(p)
}

proof fn lemma_seg_start(t: Seq<char>)
    ensures
        0 <= seg_start(t) <= t.len(),
        seg_start(t) > 0 ==> t[seg_start(t) - 1] == '/',
        forall|i: int| seg_start(t) <= i < t.len() ==> #[trigger] t[i] != '/',
    decreases t.len(),
{
    if t.len() > 0 && t.last() != '/' {
        lemma_seg_start(t.drop_last());
        assert forall|i: int| seg_start(t) <= i < t.len() implies #[trigger] t[i] != '/' by {
            if i < t.len() - 1 {
                assert(t[i] == t.drop_last()[i]);
            }
        }
    }
}

proof fn lemma_prefix_ok(s: Seq<char>, k: int)
    requires
        path_ok(s),
        0 <= k <= s.len(),
        k == 0 || s[k - 1] == '/',
    ensures
        path_ok(s.subrange(0, k)),
{
    let p = s.subrange(0, k);
    if k > 0 {
        assert(p.last() == '/');
        assert(p[0] == s[0]);
        assert forall|i: int| 0 <= i < p.len() - 1 && #[trigger] p[i] == '/' implies p[i + 1] != '/' by {
            assert(s[i] == '/');
        }
    }
}

/// A path that failed to read, with the text that failed.
#[derive(Debug)]
pub struct PathError {
    pub text: String,
}

impl PathError {
    /// What went wrong, in words.
    pub fn message(&self) -> (r: String)
        ensures
            r@ == "cannot read \""@ + self.text@ + "\""@,
    {
        let mut out = String::from_str("cannot read \"");
        out.append(self.text.as_str());
        out.append("\"");
        out
    }
}

/// A position in the tree.
#[derive(Debug)]
pub struct Path(String);

impl View for Path {
    type V = Seq<char>;

    closed spec fn view(&self) -> Seq<char> {
        self.0@
    }
}

fn text_char(s: &String, i: usize) -> (c: char)
    requires
        i < s@.len(),
    ensures
        c == s@[i as int],
{
    s.as_str().get_char(i)
}

fn text_len(s: &String) -> (n: usize)
    ensures
        n == s@.len(),
{
    s.as_str().unicode_len()
}

/// Where the last segment of the first `n` characters of `s` starts.
fn seg_start_exec(s: &String, n: usize) -> (k: usize)
    requires
        n <= s@.len(),
    ensures
        k == seg_start(s@.subrange(0, n as int)),
{
    let mut j: usize = n;
    while j > 0 && text_char(s, j - 1) != '/'
        invariant
            j <= n <= s@.len(),
            seg_start(s@.subrange(0, n as int)) == seg_start(s@.subrange(0, j as int)),
        decreases j,
    {
        assert(s@.subrange(0, j as int).drop_last() =~= s@.subrange(0, j - 1));
        j = j - 1;
    }
    if j > 0 {
        assert(s@.subrange(0, j as int).last() == '/');
    }
    j
}

impl Path {
    #[verifier::type_invariant]
    closed spec fn well_formed(self) -> bool {
        path_ok(self.0@)
    }

    /// The root, the empty path.
    pub fn root() -> (p: Path)
        ensures
            p@ == Seq::<char>::empty(),
    {
        Path(String::new())
    }

    /// Reads a path, supplying its closing slash when the text leaves it off.
    pub fn parse(text: &str) -> (r: Result<Path, PathError>)
        ensures
            r is Ok <==> path_ok(normalized(text@)),
            r matches Ok(p) ==> p@ == normalized(text@),
            r matches Err(e) ==> e.text@ == text@,
    {
        let mut s = String::from_str(text);
        let n = text_len(&s);
        if n > 0 && text_char(&s, n - 1) != '/' {
            s.append("/");
            proof {
                reveal_strlit("/");
            }
        }
        assert(s@ == normalized(text@));
        let len = text_len(&s);
        if len == 0 {
            return Ok(Path(s));
        }
        if text_char(&s, 0) == '/' {
            return Err(PathError { text: String::from_str(text) });
        }
        let mut i: usize = 0;
        while i + 1 < len
            invariant
                len == s@.len(),
                len > 0,
                s@ == normalized(text@),
                s@.last() == '/',
                s@[0] != '/',
                i < len,
                forall|k: int| 0 <= k < i && #[trigger] s@[k] == '/' ==> s@[k + 1] != '/',
            decreases len - i,
        {
            if text_char(&s, i) == '/' && text_char(&s, i + 1) == '/' {
                return Err(PathError { text: String::from_str(text) });
            }
            i = i + 1;
        }
        Ok(Path(s))
    }

    pub fn as_str(&self) -> (r: &str)
        ensures
            r@ == self@,
            path_ok(self@),
    {
        proof {
            use_type_invariant(self);
        }
        self.0.as_str()
    }

    /// Whether this path sits at or under `scope`.
    pub fn is_within(&self, scope: &Path) -> (r: bool)
        ensures
            r == within(self@, scope@),
    {
        let n = text_len(&scope.0);
        let m = text_len(&self.0);
        if n > m {
            return false;
        }
        let mut i: usize = 0;
        while i < n
            invariant
                n == scope@.len(),
                m == self@.len(),
                n <= m,
                i <= n,
                forall|k: int| 0 <= k < i ==> scope@[k] == self@[k],
            decreases n - i,
        {
            if text_char(&scope.0, i) != text_char(&self.0, i) {
                return false;
            }
            i = i + 1;
        }
        true
    }

    /// The path one level up, or `None` at the root.
    pub fn parent(&self) -> (r: Option<Path>)
        ensures
            r matches Some(p) ==> parent_text(self@) == Some(p@),
            r is None ==> parent_text(self@) is None,
    {
        proof {
            use_type_invariant(self);
        }
        let n = text_len(&self.0);
        if n == 0 {
            return None;
        }
        let k = seg_start_exec(&self.0, n - 1);
        proof {
            assert(self@.subrange(0, n - 1) =~= self@.drop_last());
            lemma_seg_start(self@.drop_last());
            lemma_prefix_ok(self@, k as int);
        }
        let text = String::from_str(self.0.as_str().substring_char(0, k));
        Some(Path(text))
    }

    /// This path extended by one segment.
    pub fn join(&self, segment: &str) -> (r: Result<Path, PathError>)
        ensures
            r is Ok <==> segment_ok(segment@),
            r matches Ok(p) ==> p@ == joined(self@, segment@),
            r matches Err(e) ==> e.text@ == segment@,
    {
        proof {
            use_type_invariant(self);
        }
        let n = segment.unicode_len();
        if n == 0 {
            return Err(PathError { text: String::from_str(segment) });
        }
        let mut i: usize = 0;
        while i < n
            invariant
                n == segment@.len(),
                i <= n,
                forall|k: int| 0 <= k < i ==> #[trigger] segment@[k] != '/',
            decreases n - i,
        {
            if segment.get_char(i) == '/' {
                return Err(PathError { text: String::from_str(segment) });
            }
            i = i + 1;
        }
        let mut text = self.0.clone();
        text.append(segment);
        text.append("/");
        proof {
            reveal_strlit("/");
        }
        proof {
            let s = text@;
            let b = self@;
            assert(s =~= joined(b, segment@));
            assert(s.last() == '/');
            assert(s[0] != '/') by {
                if b.len() == 0 {
                    assert(s[0] == segment@[0]);
                }
            }
            assert forall|k: int| 0 <= k < s.len() - 1 && #[trigger] s[k] == '/' implies s[k + 1] != '/' by {
                if k < b.len() - 1 {
                    assert(s[k] == b[k] && s[k + 1] == b[k + 1]);
                } else if k == b.len() - 1 {
                    assert(s[k + 1] == segment@[0]);
                } else {
                    assert(s[k] == segment@[k - b.len()]);
                }
            }
        }
        Ok(Path(text))
    }

    pub fn copy(&self) -> (r: Path)
        ensures
            r@ == self@,
    {
        proof {
            use_type_invariant(self);
        }
        Path(self.0.clone())
    }

    pub fn same(&self, other: &Path) -> (r: bool)
        ensures
            r == (self@ == other@),
    {
        self.0 == other.0
    }
}

/// The last segment of a path, without its slash: what `join` needs to place
/// the same object somewhere else.
pub fn last_segment(path: &Path) -> (r: String)
    ensures
        r@ == last_segment_text(path@),
        path@.len() > 0 ==> segment_ok(r@),
{
    let s = path.as_str();
    let n = s.unicode_len();
    if n == 0 {
        return String::new();
    }
    let k = seg_start_exec(&path.0, n - 1);
    proof {
        let t = path@;
        assert(t.subrange(0, n - 1) =~= t.drop_last());
        lemma_seg_start(t.drop_last());
        assert(t.len() >= 2) by {
            if t.len() == 1 {
                assert(t[0] == t.last());
            }
        }
        assert(t[t.len() - 2] != '/');
        let d = t.drop_last();
        assert(d.last() != '/');
        assert(d.drop_last().len() < d.len());
        lemma_seg_start(d.drop_last());
        assert(seg_start(d) == seg_start(d.drop_last()));
        let seg = t.subrange(seg_start(d), t.len() - 1);
        assert forall|i: int| 0 <= i < seg.len() implies #[trigger] seg[i] != '/' by {
            assert(seg[i] == d[seg_start(d) + i]);
        }
    }
    String::from_str(s.substring_char(k, n - 1))
}

impl Clone for Path {
    fn clone(&self) -> (r: Path)
        ensures
            r@ == self@,
    {
        self.copy()
    }
}

impl PartialEq for Path {
    fn eq(&self, other: &Path) -> (r: bool) {
        self.same(other)
    }
}

impl vstd::std_specs::cmp::PartialEqSpecImpl for Path {
    open spec fn obeys_eq_spec() -> bool {
        true
    }

    open spec fn eq_spec(&self, other: &Path) -> bool {
        self@ == other@
    }
}

impl Eq for Path {
}

impl Default for Path {
    fn default() -> (p: Path)
        ensures
            p@ == Seq::<char>::empty(),
    {
        Path::root()
    }
}

} // verus!
