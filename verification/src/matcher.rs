use crate::order::same_bytes;
use crate::path::{copy_bytes, RepoPath};
use vstd::prelude::*;
use vstd::string::StringSliceAdditionalSpecFns;

verus! {

/// What a matcher says of a directory.
#[derive(Clone, Copy, Debug, PartialEq, Eq, Structural)]
pub enum DirectoryMatch {
    /// Every file below the directory matches.
    Everything,
    /// No file below the directory matches.
    Nothing,
    /// Some files below the directory may match.
    Maybe,
}

/// A choice of files by their paths.
pub trait Matcher {
    /// What the matcher says of the directory at the path.
    spec fn dir_spec(&self, path: Seq<Seq<u8>>) -> DirectoryMatch;

    /// Whether the matcher takes the file at the path.
    spec fn file_spec(&self, path: Seq<Seq<u8>>) -> bool;

    fn matches_directory(&self, path: &RepoPath) -> (r: DirectoryMatch)
        ensures
            r == self.dir_spec(path@),
    ;

    fn matches_file(&self, path: &RepoPath) -> (r: bool)
        ensures
            r == self.file_spec(path@),
    ;
}

/// The matcher that takes every file.
#[derive(Clone, Copy, Debug)]
pub struct AlwaysMatcher;

impl AlwaysMatcher {
    pub fn new() -> (r: AlwaysMatcher) {
        AlwaysMatcher
    }
}

impl Matcher for AlwaysMatcher {
    open spec fn dir_spec(&self, path: Seq<Seq<u8>>) -> DirectoryMatch {
        DirectoryMatch::Everything
    }

    open spec fn file_spec(&self, path: Seq<Seq<u8>>) -> bool {
        true
    }

    fn matches_directory(&self, path: &RepoPath) -> (r: DirectoryMatch) {
        DirectoryMatch::Everything
    }

    fn matches_file(&self, path: &RepoPath) -> (r: bool) {
        true
    }
}

/// The matcher that takes no file.
#[derive(Clone, Copy, Debug)]
pub struct NeverMatcher;

impl NeverMatcher {
    pub fn new() -> (r: NeverMatcher) {
        NeverMatcher
    }
}

impl Matcher for NeverMatcher {
    open spec fn dir_spec(&self, path: Seq<Seq<u8>>) -> DirectoryMatch {
        DirectoryMatch::Nothing
    }

    open spec fn file_spec(&self, path: Seq<Seq<u8>>) -> bool {
        false
    }

    fn matches_directory(&self, path: &RepoPath) -> (r: DirectoryMatch) {
        DirectoryMatch::Nothing
    }

    fn matches_file(&self, path: &RepoPath) -> (r: bool) {
        false
    }
}

/// One piece of a pattern; it stands for path components.
#[derive(Debug)]
pub enum Segment {
    /// The component with exactly these bytes.
    Literal(Vec<u8>),
    /// Any one component.
    Any,
    /// Any number of components, none included.
    AnyDepth,
}

/// The mathematical content of a `Segment`.
pub ghost enum SegmentView {
    Literal(Seq<u8>),
    Any,
    AnyDepth,
}

impl View for Segment {
    type V = SegmentView;

    open spec fn view(&self) -> SegmentView {
        match self {
            Segment::Literal(b) => SegmentView::Literal(b@),
            Segment::Any => SegmentView::Any,
            Segment::AnyDepth => SegmentView::AnyDepth,
        }
    }
}

/// A pattern for paths: its segments from the root down.
#[derive(Debug)]
pub struct Pattern {
    pub segments: Vec<Segment>,
}

impl View for Pattern {
    type V = Seq<SegmentView>;

    open spec fn view(&self) -> Seq<SegmentView> {
        Seq::new(self.segments@.len(), |i: int| self.segments@[i]@)
    }
}

/// The pattern from segment `i` on stands for exactly the components of the
/// path from `j` up to `n`.
pub open spec fn glob(pat: Seq<SegmentView>, i: int, path: Seq<Seq<u8>>, j: int, n: int) -> bool
    decreases pat.len() - i, n - j,
{
    if i < 0 || i >= pat.len() {
        j == n
    } else {
        match pat[i] {
            SegmentView::Literal(b) => j < n && path[j] == b && glob(pat, i + 1, path, j + 1, n),
            SegmentView::Any => j < n && glob(pat, i + 1, path, j + 1, n),
            SegmentView::AnyDepth => glob(pat, i + 1, path, j, n) || (j < n && glob(
                pat,
                i,
                path,
                j + 1,
                n,
            )),
        }
    }
}

/// The pattern stands for the path itself or for a directory above it.
pub open spec fn covers(pat: Seq<SegmentView>, path: Seq<Seq<u8>>) -> bool {
    exists|n: int| 0 <= n <= path.len() && #[trigger] glob(pat, 0, path, 0, n)
}

/// The components of the path from `j` on fit the pattern from segment `i`
/// on as far as they go: the pattern may stand for a longer path.
pub open spec fn viable(pat: Seq<SegmentView>, i: int, path: Seq<Seq<u8>>, j: int) -> bool
    decreases pat.len() - i, path.len() - j,
{
    if j >= path.len() {
        true
    } else if i < 0 || i >= pat.len() {
        false
    } else {
        match pat[i] {
            SegmentView::Literal(b) => path[j] == b && viable(pat, i + 1, path, j + 1),
            SegmentView::Any => viable(pat, i + 1, path, j + 1),
            SegmentView::AnyDepth => viable(pat, i + 1, path, j) || viable(pat, i, path, j + 1),
        }
    }
}

/// Some rule stands for the path or for a directory above it.
pub open spec fn any_covers(rules: Seq<Pattern>, path: Seq<Seq<u8>>) -> bool {
    exists|k: int| 0 <= k < rules.len() && covers(#[trigger] rules[k]@, path)
}

/// The path fits some rule as far as it goes.
pub open spec fn any_viable(rules: Seq<Pattern>, path: Seq<Seq<u8>>) -> bool {
    exists|k: int| 0 <= k < rules.len() && viable(#[trigger] rules[k]@, 0, path, 0)
}

impl Pattern {
    /// Reads a pattern from text: the text is cut at each separator; the
    /// piece `*` stands for any one component, the piece `**` for any number
    /// of components, any other piece for itself. `None` for a text with an
    /// empty piece; the empty text is the pattern without segments, which
    /// stands for the root.
    pub fn from_bytes(text: &[u8]) -> (r: Option<Pattern>)
        ensures
            r is Some <==> crate::path::valid_path(crate::path::split_path(text@)),
            r is Some ==> r.unwrap()@ == pattern_of(text@),
    {
        let path = match RepoPath::from_bytes(text) {
            Some(p) => p,
            None => {
                return None;
            },
        };
        let mut segments: Vec<Segment> = Vec::with_capacity(path.len());
        let mut i: usize = 0;
        while i < path.len()
            invariant
                i <= path@.len(),
                segments@.len() == i,
                forall|k: int| 0 <= k < i ==> (#[trigger] segments@[k])@ == segment_of(path@[k]),
            decreases path@.len() - i,
        {
            let c = path.component(i).as_bytes();
            let seg = if c.len() == 1 && c[0] == 42 {
                assert(c@ =~= seq![42u8]);
                Segment::Any
            } else if c.len() == 2 && c[0] == 42 && c[1] == 42 {
                assert(c@ =~= seq![42u8, 42u8]);
                Segment::AnyDepth
            } else {
                Segment::Literal(copy_bytes(c))
            };
            segments.push(seg);
            i += 1;
        }
        let r = Pattern { segments };
        assert forall|k: int| 0 <= k < r@.len() implies (#[trigger] r@[k]) == segment_of(path@[k]) by {
            assert(r@[k] == segments@[k]@);
        }
        assert(r@ =~= pattern_of(text@));
        Some(r)
    }

    /// Reads a pattern from the text of a string.
    pub fn from_str(text: &str) -> (r: Option<Pattern>)
        ensures
            r is Some <==> crate::path::valid_path(crate::path::split_path(text.spec_bytes())),
            r is Some ==> r.unwrap()@ == pattern_of(text.spec_bytes()),
    {
        Self::from_bytes(text.as_bytes())
    }

    /// Tells whether the pattern from segment `i` on stands for exactly the
    /// components of the path from `j` up to `n`.
    pub fn matches_range(&self, i: usize, path: &RepoPath, j: usize, n: usize) -> (r: bool)
        requires
            i <= self@.len(),
            j <= n <= path@.len(),
        ensures
            r == glob(self@, i as int, path@, j as int, n as int),
        decreases self@.len() - i, n - j,
    {
        let len = self.segments.len();
        if i >= len {
            return j == n;
        }
        assert(self@[i as int] == self.segments@[i as int]@);
        match &self.segments[i] {
            Segment::Literal(b) => j < n && same_bytes(path.component(j).as_bytes(), b.as_slice())
                && self.matches_range(i + 1, path, j + 1, n),
            Segment::Any => j < n && self.matches_range(i + 1, path, j + 1, n),
            Segment::AnyDepth => self.matches_range(i + 1, path, j, n) || (j < n && self.matches_range(
                i,
                path,
                j + 1,
                n,
            )),
        }
    }

    /// Tells whether the pattern stands for the path or for a directory
    /// above it.
    pub fn covers_path(&self, path: &RepoPath) -> (r: bool)
        ensures
            r == covers(self@, path@),
    {
        let mut n: usize = 0;
        let len = path.len();
        while n <= len
            invariant
                n <= len + 1,
                len == path@.len(),
                forall|k: int| 0 <= k < n ==> !glob(self@, 0, path@, 0, k),
            decreases len + 1 - n,
        {
            if self.matches_range(0, path, 0, n) {
                return true;
            }
            if n == len {
                return false;
            }
            n += 1;
        }
        false
    }

    /// Tells whether the components of the path from `j` on fit the pattern
    /// from segment `i` on as far as they go.
    pub fn fits(&self, i: usize, path: &RepoPath, j: usize) -> (r: bool)
        requires
            i <= self@.len(),
            j <= path@.len(),
        ensures
            r == viable(self@, i as int, path@, j as int),
        decreases self@.len() - i, path@.len() - j,
    {
        if j >= path.len() {
            return true;
        }
        if i >= self.segments.len() {
            return false;
        }
        assert(self@[i as int] == self.segments@[i as int]@);
        match &self.segments[i] {
            Segment::Literal(b) => same_bytes(path.component(j).as_bytes(), b.as_slice()) && self.fits(
                i + 1,
                path,
                j + 1,
            ),
            Segment::Any => self.fits(i + 1, path, j + 1),
            Segment::AnyDepth => self.fits(i + 1, path, j) || self.fits(i, path, j + 1),
        }
    }
}

/// The segment that a piece of a pattern's text stands for.
pub open spec fn segment_of(piece: Seq<u8>) -> SegmentView {
    if piece == seq![42u8] {
        SegmentView::Any
    } else if piece == seq![42u8, 42u8] {
        SegmentView::AnyDepth
    } else {
        SegmentView::Literal(piece)
    }
}

/// The pattern that a text stands for.
pub open spec fn pattern_of(text: Seq<u8>) -> Seq<SegmentView> {
    Seq::new(
        crate::path::split_path(text).len(),
        |i: int| segment_of(crate::path::split_path(text)[i]),
    )
}

/// The matcher that takes the files at and below the paths that its rules
/// stand for.
#[derive(Debug)]
pub struct TreeMatcher {
    pub rules: Vec<Pattern>,
}

impl TreeMatcher {
    /// The matcher with the given rules; `None` where a rule cannot be
    /// read: see `Pattern::from_bytes`.
    pub fn from_rules(rules: &Vec<Vec<u8>>) -> (r: Option<TreeMatcher>)
        ensures
            r is Some <==> forall|i: int|
                0 <= i < rules@.len() ==> crate::path::valid_path(
                    crate::path::split_path(#[trigger] rules@[i]@),
                ),
            r is Some ==> r.unwrap().rules@.len() == rules@.len() && forall|i: int|
                0 <= i < rules@.len() ==> (#[trigger] r.unwrap().rules@[i])@ == pattern_of(rules@[i]@),
    {
        let mut out: Vec<Pattern> = Vec::with_capacity(rules.len());
        let mut i: usize = 0;
        while i < rules.len()
            invariant
                i <= rules@.len(),
                out@.len() == i,
                forall|k: int|
                    0 <= k < i ==> crate::path::valid_path(crate::path::split_path(#[trigger] rules@[k]@)),
                forall|k: int| 0 <= k < i ==> (#[trigger] out@[k])@ == pattern_of(rules@[k]@),
            decreases rules@.len() - i,
        {
            match Pattern::from_bytes(rules[i].as_slice()) {
                Some(p) => {
                    out.push(p);
                },
                None => {
                    return None;
                },
            }
            i += 1;
        }
        Some(TreeMatcher { rules: out })
    }
}

impl Matcher for TreeMatcher {
    /// Everything where a rule stands for the directory or for one above
    /// it; else maybe something where the path fits a rule as far as it
    /// goes; else nothing.
    open spec fn dir_spec(&self, path: Seq<Seq<u8>>) -> DirectoryMatch {
        if any_covers(self.rules@, path) {
            DirectoryMatch::Everything
        } else if any_viable(self.rules@, path) {
            DirectoryMatch::Maybe
        } else {
            DirectoryMatch::Nothing
        }
    }

    /// A file is taken where a rule stands for it or for a directory above it.
    open spec fn file_spec(&self, path: Seq<Seq<u8>>) -> bool {
        any_covers(self.rules@, path)
    }

    fn matches_directory(&self, path: &RepoPath) -> (r: DirectoryMatch) {
        if self.matches_file(path) {
            return DirectoryMatch::Everything;
        }
        let mut k: usize = 0;
        while k < self.rules.len()
            invariant
                k <= self.rules@.len(),
                !any_covers(self.rules@, path@),
                forall|j: int| 0 <= j < k ==> !viable((#[trigger] self.rules@[j])@, 0, path@, 0),
            decreases self.rules@.len() - k,
        {
            if self.rules[k].fits(0, path, 0) {
                return DirectoryMatch::Maybe;
            }
            k += 1;
        }
        DirectoryMatch::Nothing
    }

    fn matches_file(&self, path: &RepoPath) -> (r: bool) {
        let mut k: usize = 0;
        while k < self.rules.len()
            invariant
                k <= self.rules@.len(),
                forall|j: int| 0 <= j < k ==> !covers((#[trigger] self.rules@[j])@, path@),
            decreases self.rules@.len() - k,
        {
            if self.rules[k].covers_path(path) {
                return true;
            }
            k += 1;
        }
        false
    }
}

} // verus!
