use crate::order::same_bytes;
use vstd::prelude::*;
use vstd::slice::slice_subrange;
use vstd::std_specs::cmp::PartialEqSpecImpl;
use vstd::string::StringSliceAdditionalSpecFns;

verus! {

/// The byte that separates the components of a path.
pub const SEPARATOR: u8 = 47;

/// A component is a non-empty byte string without the separator. The zero
/// byte is excluded as well: it ends a name in a serialized directory.
pub open spec fn valid_component(c: Seq<u8>) -> bool {
    &&& c.len() > 0
    &&& forall|i: int| 0 <= i < c.len() ==> c[i] != 47 && c[i] != 0
}

/// Every component of the path is valid.
pub open spec fn valid_path(p: Seq<Seq<u8>>) -> bool {
    forall|i: int| 0 <= i < p.len() ==> valid_component(#[trigger] p[i])
}

/// `p` is `q` cut off after some number of components.
pub open spec fn is_prefix(p: Seq<Seq<u8>>, q: Seq<Seq<u8>>) -> bool {
    p.len() <= q.len() && q.subrange(0, p.len() as int) == p
}

/// Index of the first separator at or after `start`, or the length of `s`.
pub open spec fn next_sep(s: Seq<u8>, start: int) -> int
    decreases s.len() - start,
{
    if start < 0 || start >= s.len() {
        s.len() as int
    } else if s[start] == 47 {
        start
    } else {
        next_sep(s, start + 1)
    }
}

pub proof fn lemma_next_sep_bounds(s: Seq<u8>, start: int)
    requires
        0 <= start <= s.len(),
    ensures
        start <= next_sep(s, start) <= s.len(),
        next_sep(s, start) < s.len() ==> s[next_sep(s, start)] == 47,
        forall|k: int| start <= k < next_sep(s, start) ==> s[k] != 47,
    decreases s.len() - start,
{
    if start < s.len() && s[start] != 47 {
        lemma_next_sep_bounds(s, start + 1);
    }
}

/// The pieces between separators of the text that begins at `start`.
pub open spec fn split_from(s: Seq<u8>, start: int) -> Seq<Seq<u8>>
    decreases s.len() - start,
{
    if start < 0 || start > s.len() {
        Seq::empty()
    } else {
        let e = next_sep(s, start);
        let head = seq![s.subrange(start, e)];
        if e >= s.len() || e < start {
            head
        } else {
            head + split_from(s, e + 1)
        }
    }
}

/// The components of a path written as text: the empty text is the root,
/// any other text is cut at each separator.
pub open spec fn split_path(s: Seq<u8>) -> Seq<Seq<u8>> {
    if s.len() == 0 {
        Seq::empty()
    } else {
        split_from(s, 0)
    }
}

/// The first `n` components written as text, with a separator between
/// neighbours.
pub open spec fn join_upto(p: Seq<Seq<u8>>, n: int) -> Seq<u8>
    decreases n,
{
    if n <= 0 {
        Seq::empty()
    } else if n == 1 {
        p[0]
    } else {
        join_upto(p, n - 1) + seq![47u8] + p[n - 1]
    }
}

/// The path written as text.
pub open spec fn join_path(p: Seq<Seq<u8>>) -> Seq<u8> {
    join_upto(p, p.len() as int)
}

/// One name in a directory.
#[derive(Debug)]
pub struct PathComponent {
    pub bytes: Vec<u8>,
}

impl View for PathComponent {
    type V = Seq<u8>;

    open spec fn view(&self) -> Seq<u8> {
        self.bytes@
    }
}

/// Copies a byte string.
pub fn copy_bytes(b: &[u8]) -> (r: Vec<u8>)
    ensures
        r@ == b@,
{
    let mut out: Vec<u8> = Vec::with_capacity(b.len());
    let mut i: usize = 0;
    while i < b.len()
        invariant
            i <= b@.len(),
            out@ == b@.subrange(0, i as int),
        decreases b@.len() - i,
    {
        out.push(b[i]);
        assert(b@.subrange(0, i + 1) =~= b@.subrange(0, i as int).push(b@[i as int]));
        i += 1;
    }
    assert(b@.subrange(0, b@.len() as int) =~= b@);
    out
}

/// Appends a byte string to a buffer.
pub fn append_bytes(out: &mut Vec<u8>, b: &[u8])
    ensures
        final(out)@ == old(out)@ + b@,
{
    let mut i: usize = 0;
    while i < b.len()
        invariant
            i <= b@.len(),
            out@ == old(out)@ + b@.subrange(0, i as int),
        decreases b@.len() - i,
    {
        out.push(b[i]);
        assert(b@.subrange(0, i + 1) =~= b@.subrange(0, i as int).push(b@[i as int]));
        assert((old(out)@ + b@.subrange(0, i as int)).push(b@[i as int]) =~= old(out)@ + b@.subrange(
            0,
            i + 1,
        ));
        i += 1;
    }
    assert(b@.subrange(0, b@.len() as int) =~= b@);
}

/// Tells whether the bytes form a valid component.
pub fn is_valid_component(b: &[u8]) -> (r: bool)
    ensures
        r == valid_component(b@),
{
    if b.len() == 0 {
        return false;
    }
    let mut i: usize = 0;
    while i < b.len()
        invariant
            i <= b@.len(),
            forall|k: int| 0 <= k < i ==> b@[k] != 47 && b@[k] != 0,
        decreases b@.len() - i,
    {
        if b[i] == SEPARATOR || b[i] == 0 {
            return false;
        }
        i += 1;
    }
    true
}

impl PathComponent {
    /// The name is a valid component.
    pub open spec fn wf(&self) -> bool {
        valid_component(self@)
    }

    /// Makes a component of the bytes if they form a valid one.
    pub fn from_bytes(b: &[u8]) -> (r: Option<PathComponent>)
        ensures
            r is Some <==> valid_component(b@),
            r is Some ==> r.unwrap()@ == b@,
    {
        if is_valid_component(b) {
            Some(PathComponent { bytes: copy_bytes(b) })
        } else {
            None
        }
    }

    /// Makes a component of the text of a string.
    pub fn from_str(s: &str) -> (r: Option<PathComponent>)
        ensures
            r is Some <==> valid_component(s.spec_bytes()),
            r is Some ==> r.unwrap()@ == s.spec_bytes(),
    {
        Self::from_bytes(s.as_bytes())
    }

    /// The bytes of the name.
    pub fn as_bytes(&self) -> (r: &[u8])
        ensures
            r@ == self@,
    {
        self.bytes.as_slice()
    }

    /// Tells whether two components are the same name.
    pub fn same(&self, other: &PathComponent) -> (r: bool)
        ensures
            r == (self@ == other@),
    {
        same_bytes(self.bytes.as_slice(), other.bytes.as_slice())
    }
}

impl PartialEq for PathComponent {
    fn eq(&self, other: &PathComponent) -> (r: bool) {
        self.same(other)
    }
}

impl PartialEqSpecImpl for PathComponent {
    open spec fn obeys_eq_spec() -> bool {
        true
    }

    open spec fn eq_spec(&self, other: &PathComponent) -> bool {
        self@ == other@
    }
}

impl Clone for PathComponent {
    fn clone(&self) -> (r: Self)
        ensures
            r@ == self@,
    {
        PathComponent { bytes: copy_bytes(self.bytes.as_slice()) }
    }
}

/// A path inside the repository: its components from the root down. The
/// path without components is the root.
#[derive(Debug)]
pub struct RepoPath {
    pub components: Vec<PathComponent>,
}

impl View for RepoPath {
    type V = Seq<Seq<u8>>;

    open spec fn view(&self) -> Seq<Seq<u8>> {
        Seq::new(self.components@.len(), |i: int| self.components@[i]@)
    }
}

impl RepoPath {
    /// Every component is valid.
    pub open spec fn wf(&self) -> bool {
        valid_path(self@)
    }

    /// The root path.
    pub fn new() -> (r: RepoPath)
        ensures
            r@ == Seq::<Seq<u8>>::empty(),
            r.wf(),
    {
        let r = RepoPath { components: Vec::new() };
        assert(r@ =~= Seq::<Seq<u8>>::empty());
        r
    }

    /// Number of components.
    pub fn len(&self) -> (r: usize)
        ensures
            r == self@.len(),
    {
        self.components.len()
    }

    /// Tells whether this is the root path.
    pub fn is_empty(&self) -> (r: bool)
        ensures
            r == (self@.len() == 0),
    {
        self.components.len() == 0
    }

    /// The component at position `i`.
    pub fn component(&self, i: usize) -> (r: &PathComponent)
        requires
            i < self@.len(),
        ensures
            r@ == self@[i as int],
    {
        &self.components[i]
    }

    /// Adds a component at the end.
    pub fn push(&mut self, c: PathComponent)
        ensures
            final(self)@ == old(self)@.push(c@),
    {
        self.components.push(c);
        assert(self@ =~= old(self)@.push(c@));
    }

    /// Takes the last component off, if there is one.
    pub fn pop(&mut self) -> (r: Option<PathComponent>)
        ensures
            old(self)@.len() == 0 ==> r is None && final(self)@ == old(self)@,
            old(self)@.len() > 0 ==> r is Some && r.unwrap()@ == old(self)@.last() && final(self)@
                == old(self)@.drop_last(),
    {
        let r = self.components.pop();
        assert(old(self)@.len() > 0 ==> self@ =~= old(self)@.drop_last());
        assert(old(self)@.len() == 0 ==> self@ =~= old(self)@);
        r
    }

    /// The path made of the first `n` components.
    pub fn prefix(&self, n: usize) -> (r: RepoPath)
        requires
            n <= self@.len(),
        ensures
            r@ == self@.subrange(0, n as int),
    {
        let mut out: Vec<PathComponent> = Vec::with_capacity(n);
        let mut i: usize = 0;
        while i < n
            invariant
                i <= n,
                n <= self.components@.len(),
                out@.len() == i,
                forall|k: int| 0 <= k < i ==> out@[k]@ == self.components@[k]@,
            decreases n - i,
        {
            out.push(self.components[i].clone());
            i += 1;
        }
        let r = RepoPath { components: out };
        assert(r@ =~= self@.subrange(0, n as int));
        r
    }

    /// Tells whether two paths have the same components.
    pub fn same(&self, other: &RepoPath) -> (r: bool)
        ensures
            r == (self@ == other@),
    {
        if self.components.len() != other.components.len() {
            assert(self@.len() != other@.len());
            return false;
        }
        let mut i: usize = 0;
        while i < self.components.len()
            invariant
                i <= self.components@.len(),
                self.components@.len() == other.components@.len(),
                forall|k: int| 0 <= k < i ==> self.components@[k]@ == other.components@[k]@,
            decreases self.components@.len() - i,
        {
            if !self.components[i].same(&other.components[i]) {
                assert(self@[i as int] != other@[i as int]);
                return false;
            }
            i += 1;
        }
        assert(self@ =~= other@);
        true
    }

    /// The path written as text, with a separator between components.
    pub fn to_bytes(&self) -> (r: Vec<u8>)
        ensures
            r@ == join_path(self@),
    {
        let mut out: Vec<u8> = Vec::new();
        let mut i: usize = 0;
        while i < self.components.len()
            invariant
                i <= self.components@.len(),
                out@ == join_upto(self@, i as int),
            decreases self.components@.len() - i,
        {
            if i > 0 {
                out.push(SEPARATOR);
            }
            append_bytes(&mut out, self.components[i].as_bytes());
            proof {
                if i == 0 {
                    assert(out@ =~= self@[0]);
                } else {
                    assert(out@ =~= join_upto(self@, i as int) + seq![47u8] + self@[i as int]);
                }
            }
            i += 1;
        }
        out
    }

    /// Reads a path from text: the empty text is the root; any other text is
    /// cut at each separator, and every piece has to be a valid component.
    pub fn from_bytes(b: &[u8]) -> (r: Option<RepoPath>)
        ensures
            r is Some <==> valid_path(split_path(b@)),
            r is Some ==> r.unwrap()@ == split_path(b@),
    {
        let mut out: Vec<PathComponent> = Vec::new();
        if b.len() == 0 {
            let r = RepoPath { components: out };
            assert(r@ =~= split_path(b@));
            return Some(r);
        }
        let mut start: usize = 0;
        let mut i: usize = 0;
        let ghost mut done: Seq<Seq<u8>> = Seq::empty();
        while i < b.len()
            invariant
                start <= i <= b@.len(),
                b@.len() > 0,
                done == Seq::new(out@.len(), |k: int| out@[k]@),
                valid_path(done),
                split_from(b@, 0) == done + split_from(b@, start as int),
                next_sep(b@, start as int) == next_sep(b@, i as int),
            decreases b@.len() - i,
        {
            if b[i] == SEPARATOR {
                let piece = slice_subrange(b, start, i);
                let ghost rest = split_from(b@, i + 1);
                proof {
                    lemma_next_sep_bounds(b@, start as int);
                    assert(split_from(b@, start as int) == seq![piece@] + rest);
                }
                match PathComponent::from_bytes(piece) {
                    Some(c) => {
                        out.push(c);
                        proof {
                            let d2 = done.push(piece@);
                            assert(d2 + rest =~= done + (seq![piece@] + rest));
                            done = d2;
                            assert(done =~= Seq::new(out@.len(), |k: int| out@[k]@));
                        }
                    },
                    None => {
                        proof {
                            let all = done + split_from(b@, start as int);
                            assert(all[done.len() as int] == piece@);
                        }
                        return None;
                    },
                }
                start = i + 1;
            }
            i += 1;
        }
        let piece = slice_subrange(b, start, b.len());
        proof {
            lemma_next_sep_bounds(b@, start as int);
            assert(split_from(b@, start as int) == seq![piece@]);
        }
        match PathComponent::from_bytes(piece) {
            Some(c) => {
                out.push(c);
                let r = RepoPath { components: out };
                proof {
                    assert(r@ =~= done + seq![piece@]);
                }
                Some(r)
            },
            None => {
                proof {
                    let all = done + split_from(b@, start as int);
                    assert(all[done.len() as int] == piece@);
                }
                None
            },
        }
    }

    /// Reads a path from the text of a string.
    pub fn from_str(s: &str) -> (r: Option<RepoPath>)
        ensures
            r is Some <==> valid_path(split_path(s.spec_bytes())),
            r is Some ==> r.unwrap()@ == split_path(s.spec_bytes()),
    {
        Self::from_bytes(s.as_bytes())
    }
}

impl PartialEq for RepoPath {
    fn eq(&self, other: &RepoPath) -> (r: bool) {
        self.same(other)
    }
}

impl PartialEqSpecImpl for RepoPath {
    open spec fn obeys_eq_spec() -> bool {
        true
    }

    open spec fn eq_spec(&self, other: &RepoPath) -> bool {
        self@ == other@
    }
}

impl Clone for RepoPath {
    fn clone(&self) -> (r: Self)
        ensures
            r@ == self@,
    {
        let r = self.prefix(self.components.len());
        assert(self@.subrange(0, self@.len() as int) =~= self@);
        r
    }
}

} // verus!
