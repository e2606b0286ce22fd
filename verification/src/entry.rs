use crate::file::FileType;
use crate::node::{hex_of, is_hex, lemma_unhex_hex_of, unhex, Node};
use crate::order::{lemma_lex_transitive, lex_lt, order_bytes, Order};
use crate::path::{append_bytes, valid_component, PathComponent};
use vstd::prelude::*;
use vstd::slice::slice_subrange;

verus! {

/// Whether a child of a directory is a file, and of which kind, or a directory.
#[derive(Clone, Copy, Debug, PartialEq, Eq, Structural)]
pub enum Flag {
    File(FileType),
    Directory,
}

/// Why a stored directory could not be read.
#[derive(Clone, Copy, Debug, PartialEq, Eq, Structural)]
pub enum EntryFault {
    /// A line holds no zero byte after the name.
    MissingNul,
    /// A name is empty or holds a separator.
    BadName,
    /// A line ends before its hash, flag and line feed are complete.
    Truncated,
    /// The hash is not written in forty lower-case hexadecimal digits.
    BadHash,
    /// The flag is none of the four known bytes.
    BadFlag,
    /// The line does not end in a line feed.
    MissingNewline,
    /// A name does not sort after the name before it.
    Unsorted,
}

/// One child as a stored directory lists it.
#[derive(Debug)]
pub struct Element {
    pub component: PathComponent,
    pub node: Node,
    pub flag: Flag,
}

/// The mathematical content of an `Element`.
pub ghost struct ElementView {
    pub name: Seq<u8>,
    pub node: Seq<u8>,
    pub flag: Flag,
}

impl View for Element {
    type V = ElementView;

    open spec fn view(&self) -> ElementView {
        ElementView { name: self.component@, node: self.node@, flag: self.flag }
    }
}

/// The views of a list of elements, in order.
pub open spec fn elements_view(v: Seq<Element>) -> Seq<ElementView> {
    Seq::new(v.len(), |i: int| v[i]@)
}

/// The byte that stands for a flag: `t` for a directory, `r`, `x` and `l`
/// for a regular file, an executable file and a symbolic link.
pub open spec fn flag_byte(f: Flag) -> u8 {
    match f {
        Flag::Directory => 116,
        Flag::File(FileType::Regular) => 114,
        Flag::File(FileType::Executable) => 120,
        Flag::File(FileType::Symlink) => 108,
    }
}

/// The flag that a byte stands for, if any.
pub open spec fn byte_flag(b: u8) -> Option<Flag> {
    if b == 116 {
        Some(Flag::Directory)
    } else if b == 114 {
        Some(Flag::File(FileType::Regular))
    } else if b == 120 {
        Some(Flag::File(FileType::Executable))
    } else if b == 108 {
        Some(Flag::File(FileType::Symlink))
    } else {
        None
    }
}

/// The line of one child: the name, a zero byte, the hash in hexadecimal,
/// the flag byte and a line feed.
pub open spec fn line_of(e: ElementView) -> Seq<u8> {
    e.name + seq![0u8] + hex_of(e.node) + seq![flag_byte(e.flag), 10u8]
}

/// The serialized directory: the lines of its children in order.
pub open spec fn entry_bytes(es: Seq<ElementView>) -> Seq<u8>
    decreases es.len(),
{
    if es.len() == 0 {
        Seq::empty()
    } else {
        line_of(es[0]) + entry_bytes(es.drop_first())
    }
}

/// The names stand in strictly increasing byte order.
pub open spec fn sorted_names(es: Seq<ElementView>) -> bool {
    forall|i: int, j: int| 0 <= i < j < es.len() ==> lex_lt(#[trigger] es[i].name, #[trigger] es[j].name)
}

/// What a directory may list: valid names in strictly increasing order, each
/// with a hash of twenty bytes.
pub open spec fn wf_elements(es: Seq<ElementView>) -> bool {
    &&& sorted_names(es)
    &&& forall|i: int| 0 <= i < es.len() ==> valid_component(#[trigger] es[i].name)
    &&& forall|i: int| 0 <= i < es.len() ==> (#[trigger] es[i].node).len() == 20
}

/// Index of the first zero byte at or after `i`, or the length of `s`.
pub open spec fn next_zero(s: Seq<u8>, i: int) -> int
    decreases s.len() - i,
{
    if i < 0 || i >= s.len() {
        s.len() as int
    } else if s[i] == 0 {
        i
    } else {
        next_zero(s, i + 1)
    }
}

pub proof fn lemma_next_zero(s: Seq<u8>, i: int)
    requires
        0 <= i <= s.len(),
    ensures
        i <= next_zero(s, i) <= s.len(),
        next_zero(s, i) < s.len() ==> s[next_zero(s, i)] == 0,
        forall|k: int| i <= k < next_zero(s, i) ==> s[k] != 0,
    decreases s.len() - i,
{
    if i < s.len() && s[i] != 0 {
        lemma_next_zero(s, i + 1);
    }
}

/// Where the first zero byte is, given a place that holds one and none before it.
pub proof fn lemma_next_zero_is(s: Seq<u8>, i: int, z: int)
    requires
        0 <= i <= z < s.len(),
        s[z] == 0,
        forall|k: int| i <= k < z ==> s[k] != 0,
    ensures
        next_zero(s, i) == z,
    decreases z - i,
{
    if i < z {
        lemma_next_zero_is(s, i + 1, z);
    }
}

/// The first line of `s` read as one child, with the number of bytes it takes.
pub open spec fn parse_line(s: Seq<u8>) -> Result<(ElementView, int), EntryFault> {
    let z = next_zero(s, 0);
    if z >= s.len() {
        Err(EntryFault::MissingNul)
    } else if !valid_component(s.subrange(0, z)) {
        Err(EntryFault::BadName)
    } else if z + 43 > s.len() {
        Err(EntryFault::Truncated)
    } else if !is_hex(s.subrange(z + 1, z + 41)) {
        Err(EntryFault::BadHash)
    } else if byte_flag(s[z + 41]) is None {
        Err(EntryFault::BadFlag)
    } else if s[z + 42] != 10 {
        Err(EntryFault::MissingNewline)
    } else {
        Ok(
            (
                ElementView {
                    name: s.subrange(0, z),
                    node: unhex(s.subrange(z + 1, z + 41)),
                    flag: byte_flag(s[z + 41]).unwrap(),
                },
                z + 43,
            ),
        )
    }
}

/// The children that the bytes list, read line by line; `prev` is the name
/// of the line before, which the next name has to sort after.
pub open spec fn parse_lines(s: Seq<u8>, prev: Option<Seq<u8>>) -> Result<Seq<ElementView>, EntryFault>
    decreases s.len(),
{
    if s.len() == 0 {
        Ok(Seq::empty())
    } else {
        match parse_line(s) {
            Err(f) => Err(f),
            Ok((e, n)) => {
                if prev is Some && !lex_lt(prev.unwrap(), e.name) {
                    Err(EntryFault::Unsorted)
                } else if n <= 0 || n > s.len() {
                    Err(EntryFault::Truncated)
                } else {
                    match parse_lines(s.skip(n), Some(e.name)) {
                        Err(f) => Err(f),
                        Ok(rest) => Ok(seq![e] + rest),
                    }
                }
            },
        }
    }
}

/// The children that a stored directory lists, or why it cannot be read.
pub open spec fn parse_entry(s: Seq<u8>) -> Result<Seq<ElementView>, EntryFault> {
    parse_lines(s, None)
}

/// The bytes so far followed by what the remaining lines give.
pub open spec fn prepend(acc: Seq<ElementView>, r: Result<Seq<ElementView>, EntryFault>) -> Result<
    Seq<ElementView>,
    EntryFault,
> {
    match r {
        Ok(rest) => Ok(acc + rest),
        Err(f) => Err(f),
    }
}

impl Flag {
    /// The byte that stands for the flag in a stored directory.
    pub fn to_byte(&self) -> (r: u8)
        ensures
            r == flag_byte(*self),
    {
        match self {
            Flag::Directory => 116,
            Flag::File(FileType::Regular) => 114,
            Flag::File(FileType::Executable) => 120,
            Flag::File(FileType::Symlink) => 108,
        }
    }

    /// The flag that the byte stands for, if any.
    pub fn from_byte(b: u8) -> (r: Option<Flag>)
        ensures
            r == byte_flag(b),
    {
        if b == 116 {
            Some(Flag::Directory)
        } else if b == 114 {
            Some(Flag::File(FileType::Regular))
        } else if b == 120 {
            Some(Flag::File(FileType::Executable))
        } else if b == 108 {
            Some(Flag::File(FileType::Symlink))
        } else {
            None
        }
    }
}

impl Element {
    pub fn new(component: PathComponent, node: Node, flag: Flag) -> (r: Element)
        ensures
            r@ == (ElementView { name: component@, node: node@, flag }),
    {
        Element { component, node, flag }
    }
}

/// Writes a directory's children out in the stored form.
pub fn serialize(elements: &Vec<Element>) -> (r: Vec<u8>)
    ensures
        r@ == entry_bytes(elements_view(elements@)),
{
    let mut out: Vec<u8> = Vec::new();
    let ghost ev = elements_view(elements@);
    let mut i: usize = 0;
    assert(ev.skip(0) =~= ev);
    while i < elements.len()
        invariant
            i <= elements@.len(),
            ev == elements_view(elements@),
            entry_bytes(ev) == out@ + entry_bytes(ev.skip(i as int)),
        decreases elements@.len() - i,
    {
        let ghost before = out@;
        let e = &elements[i];
        append_bytes(&mut out, e.component.as_bytes());
        out.push(0u8);
        let hex = e.node.to_hex();
        append_bytes(&mut out, hex.as_slice());
        out.push(e.flag.to_byte());
        out.push(10u8);
        proof {
            let rest = ev.skip(i as int);
            assert(rest[0] == e@);
            assert(rest.drop_first() =~= ev.skip(i + 1));
            assert(out@ =~= before + line_of(e@));
            assert(before + (line_of(e@) + entry_bytes(ev.skip(i + 1))) =~= (before + line_of(e@))
                + entry_bytes(ev.skip(i + 1)));
        }
        i += 1;
    }
    assert(entry_bytes(ev.skip(ev.len() as int)) =~= Seq::<u8>::empty());
    assert(out@ + Seq::<u8>::empty() =~= out@);
    out
}

/// Reads the children that a stored directory lists. The bytes are refused
/// unless every line is complete and the names are valid and strictly
/// increasing; a name that occurs twice is refused as unsorted.
pub fn parse(b: &[u8]) -> (r: Result<Vec<Element>, EntryFault>)
    ensures
        match parse_entry(b@) {
            Ok(es) => r is Ok && elements_view(r.unwrap()@) == es,
            Err(f) => r == Err::<Vec<Element>, EntryFault>(f),
        },
        r is Ok ==> wf_elements(elements_view(r.unwrap()@)),
{
    let mut out: Vec<Element> = Vec::new();
    let mut pos: usize = 0;
    let ghost mut last: Option<Seq<u8>> = None;
    assert(b@.skip(0) =~= b@);
    assert(Seq::<ElementView>::empty() + Seq::<ElementView>::empty() =~= Seq::<ElementView>::empty());
    while pos < b.len()
        invariant
            pos <= b@.len(),
            parse_entry(b@) == prepend(elements_view(out@), parse_lines(b@.skip(pos as int), last)),
            out@.len() == 0 ==> last is None,
            out@.len() > 0 ==> last == Some(out@.last().component@),
            wf_elements(elements_view(out@)),
        decreases b@.len() - pos,
    {
        let ghost s = b@.skip(pos as int);
        let mut z: usize = pos;
        while z < b.len() && b[z] != 0
            invariant
                pos <= z <= b@.len(),
                forall|k: int| pos <= k < z ==> b@[k] != 0,
            decreases b@.len() - z,
        {
            z += 1;
        }
        proof {
            lemma_next_zero(s, 0);
            if z < b@.len() {
                lemma_next_zero_is(s, 0, z - pos);
            } else {
                if next_zero(s, 0) < s.len() {
                    assert(s[next_zero(s, 0)] == b@[pos + next_zero(s, 0)]);
                }
            }
        }
        if z >= b.len() {
            return Err(EntryFault::MissingNul);
        }
        let name = slice_subrange(b, pos, z);
        assert(name@ =~= s.subrange(0, z - pos));
        let component = match PathComponent::from_bytes(name) {
            Some(c) => c,
            None => {
                return Err(EntryFault::BadName);
            },
        };
        if b.len() - z < 43 {
            return Err(EntryFault::Truncated);
        }
        let hex = slice_subrange(b, z + 1, z + 41);
        assert(hex@ =~= s.subrange(z - pos + 1, z - pos + 41));
        let node = match Node::from_hex(hex) {
            Some(n) => n,
            None => {
                return Err(EntryFault::BadHash);
            },
        };
        assert(s[z - pos + 41] == b@[z + 41]);
        assert(s[z - pos + 42] == b@[z + 42]);
        let flag = match Flag::from_byte(b[z + 41]) {
            Some(f) => f,
            None => {
                return Err(EntryFault::BadFlag);
            },
        };
        if b[z + 42] != 10 {
            return Err(EntryFault::MissingNewline);
        }
        if out.len() > 0 {
            let prev = &out[out.len() - 1];
            if order_bytes(prev.component.as_bytes(), name) != Order::Less {
                return Err(EntryFault::Unsorted);
            }
        }
        let element = Element { component, node, flag };
        proof {
            let n = z - pos + 43;
            let acc = elements_view(out@);
            let rest = parse_lines(s.skip(n), Some(element@.name));
            assert(parse_line(s) == Ok::<(ElementView, int), EntryFault>((element@, n)));
            assert(s.skip(n) =~= b@.skip(pos + n));
            assert(parse_lines(s, last) == prepend(seq![element@], rest));
            let acc2 = elements_view(out@.push(element));
            assert(acc2 =~= acc.push(element@));
            if rest is Ok {
                assert(acc + (seq![element@] + rest.unwrap()) =~= acc2 + rest.unwrap());
            }
            last = Some(element@.name);
            assert forall|i: int, j: int| 0 <= i < j < acc2.len() implies lex_lt(
                #[trigger] acc2[i].name,
                #[trigger] acc2[j].name,
            ) by {
                if j == acc.len() && i < acc.len() - 1 {
                    assert(lex_lt(acc[i].name, acc[acc.len() - 1].name));
                    lemma_lex_transitive(acc[i].name, acc[acc.len() - 1].name, element@.name);
                }
            }
            assert(element@.node.len() == 20);
        }
        out.push(element);
        pos = z + 43;
    }
    proof {
        assert(b@.skip(pos as int).len() == 0);
        assert(elements_view(out@) + Seq::<ElementView>::empty() =~= elements_view(out@));
    }
    Ok(out)
}

/// Every element of `a` occurs in `b`.
pub open spec fn all_in(a: Seq<ElementView>, b: Seq<ElementView>) -> bool {
    forall|i: int| 0 <= i < a.len() ==> b.contains(#[trigger] a[i])
}

/// Two elements of the list have the same name.
pub open spec fn has_duplicate_names(es: Seq<ElementView>) -> bool {
    exists|i: int, j: int| 0 <= i < j < es.len() && (#[trigger] es[i]).name == (#[trigger] es[j]).name
}

/// Some element of the list has the name.
pub open spec fn has_name(es: Seq<ElementView>, name: Seq<u8>) -> bool {
    exists|i: int| 0 <= i < es.len() && (#[trigger] es[i]).name == name
}

proof fn lemma_insert_members(s: Seq<ElementView>, k: int, e: ElementView)
    requires
        0 <= k <= s.len(),
    ensures
        forall|x: ElementView| #[trigger] s.insert(k, e).contains(x) <==> (s.contains(x) || x == e),
{
    let t = s.insert(k, e);
    assert forall|x: ElementView| #[trigger] t.contains(x) <==> (s.contains(x) || x == e) by {
        if t.contains(x) {
            let j = choose|j: int| 0 <= j < t.len() && t[j] == x;
            if j < k {
                assert(s[j] == x);
            } else if j > k {
                assert(s[j - 1] == x);
            }
        }
        if s.contains(x) {
            let j = choose|j: int| 0 <= j < s.len() && s[j] == x;
            let j2 = if j < k { j } else { j + 1 };
            assert(t[j2] == x);
        }
        if x == e {
            assert(t[k] == x);
        }
    }
}

/// Puts an element where its name belongs among sorted elements. Does
/// nothing, and says so, where an element of that name is there already.
fn insert_sorted(out: &mut Vec<Element>, e: Element) -> (done: bool)
    requires
        sorted_names(elements_view(old(out)@)),
    ensures
        done == !has_name(elements_view(old(out)@), e@.name),
        !done ==> elements_view(final(out)@) == elements_view(old(out)@),
        done ==> sorted_names(elements_view(final(out)@)) && final(out)@.len() == old(out)@.len() + 1
            && forall|x: ElementView| #[trigger]
            elements_view(final(out)@).contains(x) <==> (elements_view(old(out)@).contains(x) || x
                == e@),
{
    let ghost ov = elements_view(out@);
    let mut k: usize = 0;
    while k < out.len() && order_bytes(out[k].component.as_bytes(), e.component.as_bytes())
        == Order::Less
        invariant
            k <= out@.len(),
            ov == elements_view(out@),
            forall|j: int| 0 <= j < k ==> lex_lt((#[trigger] ov[j]).name, e@.name),
        decreases out@.len() - k,
    {
        assert(ov[k as int].name == out@[k as int].component@);
        k += 1;
    }
    if k < out.len() && out[k].component.same(&e.component) {
        assert(ov[k as int].name == e@.name);
        return false;
    }
    proof {
        if k < out@.len() {
            assert(ov[k as int].name == out@[k as int].component@);
            crate::order::lemma_lex_total(ov[k as int].name, e@.name);
        }
        assert(!has_name(ov, e@.name)) by {
            if has_name(ov, e@.name) {
                let j = choose|j: int| 0 <= j < ov.len() && (#[trigger] ov[j]).name == e@.name;
                crate::order::lemma_lex_irreflexive(e@.name);
                if j < k {
                    assert(lex_lt(ov[j].name, e@.name));
                } else if j > k {
                    assert(lex_lt(ov[k as int].name, ov[j].name));
                    lemma_lex_transitive(e@.name, ov[k as int].name, ov[j].name);
                }
            }
        }
    }
    let ghost ev = e@;
    out.insert(k, e);
    proof {
        let nv = elements_view(out@);
        assert(nv =~= ov.insert(k as int, ev));
        lemma_insert_members(ov, k as int, ev);
        assert forall|i: int, j: int| 0 <= i < j < nv.len() implies lex_lt(
            #[trigger] nv[i].name,
            #[trigger] nv[j].name,
        ) by {
            if j < k {
                assert(nv[i] == ov[i] && nv[j] == ov[j]);
            } else if j == k {
                assert(nv[i] == ov[i]);
            } else if i < k {
                assert(nv[i] == ov[i] && nv[j] == ov[j - 1]);
            } else if i == k {
                assert(nv[j] == ov[j - 1]);
                if j - 1 > k {
                    assert(lex_lt(ov[k as int].name, ov[j - 1].name));
                    lemma_lex_transitive(ev.name, ov[k as int].name, ov[j - 1].name);
                }
            } else {
                assert(nv[i] == ov[i - 1] && nv[j] == ov[j - 1]);
            }
        }
    }
    true
}

/// A list with one more element at the front has two elements of one name
/// exactly where the rest has, or the rest has an element of the new name.
proof fn lemma_duplicates_step(input: Seq<ElementView>, n: int)
    requires
        0 <= n < input.len(),
    ensures
        has_duplicate_names(input.subrange(n, input.len() as int)) <==> (has_duplicate_names(
            input.subrange(n + 1, input.len() as int),
        ) || has_name(input.subrange(n + 1, input.len() as int), input[n].name)),
{
    let a = input.subrange(n, input.len() as int);
    let b = input.subrange(n + 1, input.len() as int);
    if has_duplicate_names(a) {
        let (i, j) = choose|i: int, j: int|
            0 <= i < j < a.len() && (#[trigger] a[i]).name == (#[trigger] a[j]).name;
        if i == 0 {
            assert(b[j - 1].name == input[n].name);
        } else {
            assert(b[i - 1].name == b[j - 1].name);
        }
    }
    if has_duplicate_names(b) {
        let (i, j) = choose|i: int, j: int|
            0 <= i < j < b.len() && (#[trigger] b[i]).name == (#[trigger] b[j]).name;
        assert(a[i + 1].name == a[j + 1].name);
    }
    if has_name(b, input[n].name) {
        let j = choose|j: int| 0 <= j < b.len() && (#[trigger] b[j]).name == input[n].name;
        assert(a[0].name == a[j + 1].name);
    }
}

/// Puts the elements in the order of their names. Fails where two elements
/// have the same name.
pub fn sort_elements(elements: Vec<Element>) -> (r: Result<Vec<Element>, EntryFault>)
    ensures
        r is Err <==> has_duplicate_names(elements_view(elements@)),
        r matches Err(f) ==> f == EntryFault::Unsorted,
        r matches Ok(v) ==> sorted_names(elements_view(v@)) && v@.len() == elements@.len() && all_in(
            elements_view(elements@),
            elements_view(v@),
        ) && all_in(elements_view(v@), elements_view(elements@)),
{
    let ghost input = elements_view(elements@);
    let ghost len = input.len() as int;
    let mut rest = elements;
    let mut out: Vec<Element> = Vec::new();
    proof {
        assert(elements_view(rest@) =~= input.subrange(0, len));
    }
    while rest.len() > 0
        invariant
            input == elements_view(elements@),
            len == input.len(),
            rest@.len() <= len,
            elements_view(rest@) == input.subrange(0, rest@.len() as int),
            sorted_names(elements_view(out@)),
            out@.len() + rest@.len() == len,
            forall|x: ElementView|
                #![trigger elements_view(out@).contains(x)]
                #![trigger input.subrange(rest@.len() as int, len).contains(x)]
                elements_view(out@).contains(x) <==> input.subrange(rest@.len() as int, len).contains(x),
            !has_duplicate_names(input.subrange(rest@.len() as int, len)),
        decreases rest@.len(),
    {
        let ghost n = rest@.len() - 1;
        let ghost rv = elements_view(rest@);
        let ghost ov = elements_view(out@);
        let ghost tail = input.subrange(n + 1, len);
        let e = rest.pop().unwrap();
        assert(e@ == input[n]) by {
            assert(rv[n] == input.subrange(0, n + 1)[n]);
        }
        assert(elements_view(rest@) =~= input.subrange(0, n));
        proof {
            lemma_duplicates_step(input, n);
            if has_name(ov, e@.name) {
                let j = choose|j: int| 0 <= j < ov.len() && (#[trigger] ov[j]).name == e@.name;
                assert(ov.contains(ov[j]));
                let i = choose|i: int| 0 <= i < tail.len() && tail[i] == ov[j];
                assert(tail[i].name == e@.name);
            }
            if has_name(tail, e@.name) {
                let i = choose|i: int| 0 <= i < tail.len() && (#[trigger] tail[i]).name == e@.name;
                assert(tail.contains(tail[i]));
                let j = choose|j: int| 0 <= j < ov.len() && ov[j] == tail[i];
                assert(ov[j].name == e@.name);
            }
        }
        let done = insert_sorted(&mut out, e);
        if !done {
            proof {
                lemma_duplicates_grow(input, n);
            }
            return Err(EntryFault::Unsorted);
        }
        proof {
            let now = input.subrange(n, len);
            assert forall|x: ElementView|
                #![trigger elements_view(out@).contains(x)]
                #![trigger now.contains(x)]
                elements_view(out@).contains(x) <==> now.contains(x) by {
                if now.contains(x) {
                    let i = choose|i: int| 0 <= i < now.len() && now[i] == x;
                    if i > 0 {
                        assert(tail[i - 1] == x);
                    }
                }
                if tail.contains(x) {
                    let i = choose|i: int| 0 <= i < tail.len() && tail[i] == x;
                    assert(now[i + 1] == x);
                }
                if x == input[n] {
                    assert(now[0] == x);
                }
            }
        }
    }
    proof {
        assert(input.subrange(0, len) =~= input);
        let ov = elements_view(out@);
        assert forall|i: int| 0 <= i < input.len() implies ov.contains(#[trigger] input[i]) by {
            assert(input.contains(input[i]));
        }
        assert forall|j: int| 0 <= j < ov.len() implies input.contains(#[trigger] ov[j]) by {
            assert(ov.contains(ov[j]));
        }
    }
    Ok(out)
}

/// Two elements of one name in a part of a list are two in the whole list.
proof fn lemma_duplicates_grow(input: Seq<ElementView>, n: int)
    requires
        0 <= n <= input.len(),
        has_duplicate_names(input.subrange(n, input.len() as int)),
    ensures
        has_duplicate_names(input),
{
    let a = input.subrange(n, input.len() as int);
    let (i, j) = choose|i: int, j: int|
        0 <= i < j < a.len() && (#[trigger] a[i]).name == (#[trigger] a[j]).name;
    assert(input[i + n].name == input[j + n].name);
}

/// The stored form of a directory with the given children, whatever order
/// they are given in. Fails where two children have the same name.
pub fn from_elements(elements: Vec<Element>) -> (r: Result<Vec<u8>, EntryFault>)
    ensures
        r is Err <==> has_duplicate_names(elements_view(elements@)),
        r matches Err(f) ==> f == EntryFault::Unsorted,
        r matches Ok(bytes) ==> exists|es: Seq<ElementView>|
            {
                &&& #[trigger] entry_bytes(es) == bytes@
                &&& sorted_names(es)
                &&& es.len() == elements@.len()
                &&& all_in(elements_view(elements@), es)
                &&& all_in(es, elements_view(elements@))
            },
{
    match sort_elements(elements) {
        Err(f) => Err(f),
        Ok(sorted) => {
            let bytes = serialize(&sorted);
            assert(entry_bytes(elements_view(sorted@)) == bytes@);
            Ok(bytes)
        },
    }
}

/// The byte of a flag stands for that flag.
pub proof fn lemma_flag_round_trip(f: Flag)
    ensures
        byte_flag(flag_byte(f)) == Some(f),
{
}

/// The line of a valid child, read back, is that child.
pub proof fn lemma_parse_line_of(e: ElementView, rest: Seq<u8>)
    requires
        valid_component(e.name),
        e.node.len() == 20,
    ensures
        line_of(e).len() == e.name.len() + 43,
        parse_line(line_of(e) + rest) == Ok::<(ElementView, int), EntryFault>((e, line_of(e).len() as int)),
{
    let s = line_of(e) + rest;
    let z = e.name.len() as int;
    lemma_unhex_hex_of(e.node);
    assert(line_of(e).len() == z + 43);
    assert(s[z] == 0);
    assert forall|k: int| 0 <= k < z implies s[k] != 0 by {
        assert(s[k] == e.name[k]);
    }
    lemma_next_zero_is(s, 0, z);
    assert(s.subrange(0, z) =~= e.name);
    assert(s.subrange(z + 1, z + 41) =~= hex_of(e.node));
    assert(s[z + 41] == flag_byte(e.flag));
    assert(s[z + 42] == 10);
    lemma_flag_round_trip(e.flag);
}

/// The stored form of valid children, read back line by line, gives those
/// children.
pub proof fn lemma_parse_lines_of(es: Seq<ElementView>, prev: Option<Seq<u8>>)
    requires
        wf_elements(es),
        prev is Some && es.len() > 0 ==> lex_lt(prev.unwrap(), es[0].name),
    ensures
        parse_lines(entry_bytes(es), prev) == Ok::<Seq<ElementView>, EntryFault>(es),
    decreases es.len(),
{
    if es.len() == 0 {
        assert(es =~= Seq::<ElementView>::empty());
    } else {
        let e = es[0];
        let rest = es.drop_first();
        let tail = entry_bytes(rest);
        let s = entry_bytes(es);
        assert(s == line_of(e) + tail);
        assert(valid_component(e.name));
        assert(e.node.len() == 20);
        lemma_parse_line_of(e, tail);
        let n = line_of(e).len() as int;
        assert(s.skip(n) =~= tail);
        assert(wf_elements(rest)) by {
            assert forall|i: int, j: int| 0 <= i < j < rest.len() implies lex_lt(
                #[trigger] rest[i].name,
                #[trigger] rest[j].name,
            ) by {
                assert(lex_lt(es[i + 1].name, es[j + 1].name));
            }
            assert forall|i: int| 0 <= i < rest.len() implies valid_component(#[trigger] rest[i].name) by {
                assert(valid_component(es[i + 1].name));
            }
            assert forall|i: int| 0 <= i < rest.len() implies (#[trigger] rest[i].node).len() == 20 by {
                assert(es[i + 1].node.len() == 20);
            }
        }
        if rest.len() > 0 {
            assert(lex_lt(es[0].name, es[1].name));
            assert(rest[0] == es[1]);
        }
        lemma_parse_lines_of(rest, Some(e.name));
        assert(seq![e] + rest =~= es);
    }
}

/// What `serialize` writes for valid children, `parse` reads back as those
/// children.
pub proof fn lemma_parse_serialized(es: Seq<ElementView>)
    requires
        wf_elements(es),
    ensures
        parse_entry(entry_bytes(es)) == Ok::<Seq<ElementView>, EntryFault>(es),
{
    lemma_parse_lines_of(es, None);
}

} // verus!
