use crate::order::{lex_lt, order_bytes, Order};
use vstd::prelude::*;
use vstd::std_specs::cmp::PartialEqSpecImpl;

verus! {

/// Number of bytes in a node hash.
pub const NODE_LEN: usize = 20;

/// Number of characters in the hexadecimal text of a node hash.
pub const NODE_HEX_LEN: usize = 40;

/// A 20-byte identifier of a file revision or of a stored directory.
#[derive(Clone, Copy, Debug)]
pub struct Node {
    pub bytes: [u8; 20],
}

impl View for Node {
    type V = Seq<u8>;

    open spec fn view(&self) -> Seq<u8> {
        self.bytes@
    }
}

/// The lower-case hexadecimal digit of a value below 16.
pub open spec fn hex_digit(n: int) -> u8 {
    if n < 10 {
        (48 + n) as u8
    } else {
        (87 + n) as u8
    }
}

/// The value of a lower-case hexadecimal digit, if it is one.
pub open spec fn digit_value(c: u8) -> Option<int> {
    if 48 <= c <= 57 {
        Some(c - 48)
    } else if 97 <= c <= 102 {
        Some(c - 87)
    } else {
        None
    }
}

/// Lower-case hexadecimal text of a byte string, two digits for each byte.
pub open spec fn hex_of(b: Seq<u8>) -> Seq<u8> {
    Seq::new(
        2 * b.len(),
        |i: int|
            if i % 2 == 0 {
                hex_digit(b[i / 2] as int / 16)
            } else {
                hex_digit(b[i / 2] as int % 16)
            },
    )
}

/// The text consists of lower-case hexadecimal digits only.
pub open spec fn is_hex(s: Seq<u8>) -> bool {
    forall|i: int| 0 <= i < s.len() ==> (#[trigger] digit_value(s[i])) is Some
}

/// The bytes that a hexadecimal text of even length stands for.
pub open spec fn unhex(s: Seq<u8>) -> Seq<u8> {
    Seq::new(
        s.len() / 2,
        |i: int| (digit_value(s[2 * i]).unwrap() * 16 + digit_value(s[2 * i + 1]).unwrap()) as u8,
    )
}

/// Reading back the hexadecimal text of a byte string gives that byte string.
pub proof fn lemma_unhex_hex_of(b: Seq<u8>)
    ensures
        is_hex(hex_of(b)),
        hex_of(b).len() == 2 * b.len(),
        unhex(hex_of(b)) == b,
{
    let h = hex_of(b);
    assert forall|i: int| 0 <= i < h.len() implies (#[trigger] digit_value(h[i])) is Some by {
        let v = b[i / 2] as int;
        assert(0 <= v / 16 < 16 && 0 <= v % 16 < 16);
    }
    assert forall|i: int| 0 <= i < b.len() implies unhex(h)[i] == b[i] by {
        let v = b[i] as int;
        assert((2 * i) / 2 == i && (2 * i) % 2 == 0);
        assert((2 * i + 1) / 2 == i && (2 * i + 1) % 2 == 1);
        assert(0 <= v / 16 < 16 && 0 <= v % 16 < 16);
        assert(v == (v / 16) * 16 + v % 16);
    }
    assert(unhex(h) =~= b);
}

/// Writing out the bytes read from a lower-case hexadecimal text of even
/// length gives that text.
pub proof fn lemma_hex_of_unhex(s: Seq<u8>)
    requires
        is_hex(s),
        s.len() % 2 == 0,
    ensures
        hex_of(unhex(s)) == s,
{
    let b = unhex(s);
    assert forall|i: int| 0 <= i < s.len() implies hex_of(b)[i] == s[i] by {
        let k = i / 2;
        let hi = digit_value(s[2 * k]).unwrap();
        let lo = digit_value(s[2 * k + 1]).unwrap();
        assert(digit_value(s[2 * k]) is Some);
        assert(digit_value(s[2 * k + 1]) is Some);
        assert(0 <= hi < 16 && 0 <= lo < 16);
        assert((hi * 16 + lo) / 16 == hi);
        assert((hi * 16 + lo) % 16 == lo);
    }
    assert(hex_of(b) =~= s);
}

fn hex_digit_of(n: u8) -> (r: u8)
    requires
        n < 16,
    ensures
        r == hex_digit(n as int),
{
    if n < 10 {
        48 + n
    } else {
        87 + n
    }
}

fn digit_value_of(c: u8) -> (r: Option<u8>)
    ensures
        r is Some <==> digit_value(c) is Some,
        r is Some ==> r.unwrap() as int == digit_value(c).unwrap() && r.unwrap() < 16,
{
    if 48 <= c && c <= 57 {
        Some(c - 48)
    } else if 97 <= c && c <= 102 {
        Some(c - 87)
    } else {
        None
    }
}

impl Node {
    /// The identifier that stands for "no node": twenty zero bytes.
    pub open spec fn null_view() -> Seq<u8> {
        Seq::new(20, |i: int| 0u8)
    }

    /// The null identifier.
    pub fn null_id() -> (r: Node)
        ensures
            r@ == Self::null_view(),
    {
        let r = Node { bytes: [0u8; 20] };
        assert(r@ =~= Self::null_view());
        r
    }

    /// Tells whether this is the null identifier.
    pub fn is_null(&self) -> (r: bool)
        ensures
            r == (self@ == Self::null_view()),
    {
        let z = Node::null_id();
        self.same(&z)
    }

    /// Makes a node of exactly twenty bytes; `None` for any other length.
    pub fn from_slice(b: &[u8]) -> (r: Option<Node>)
        ensures
            r is Some <==> b@.len() == 20,
            r is Some ==> r.unwrap()@ == b@,
    {
        if b.len() != 20 {
            return None;
        }
        let mut bytes = [0u8; 20];
        let mut i: usize = 0;
        while i < 20
            invariant
                i <= 20,
                b@.len() == 20,
                forall|k: int| 0 <= k < i ==> bytes@[k] == b@[k],
            decreases 20 - i,
        {
            bytes[i] = b[i];
            i += 1;
        }
        let r = Node { bytes };
        assert(r@ =~= b@);
        Some(r)
    }

    /// Reads a node from forty lower-case hexadecimal digits; `None` for any
    /// other text.
    pub fn from_hex(hex: &[u8]) -> (r: Option<Node>)
        ensures
            r is Some <==> hex@.len() == 40 && is_hex(hex@),
            r is Some ==> r.unwrap()@ == unhex(hex@),
    {
        if hex.len() != 40 {
            return None;
        }
        let mut bytes = [0u8; 20];
        let mut i: usize = 0;
        while i < 20
            invariant
                i <= 20,
                hex@.len() == 40,
                forall|k: int| 0 <= k < 2 * i ==> (#[trigger] digit_value(hex@[k])) is Some,
                forall|k: int| 0 <= k < i ==> bytes@[k] == unhex(hex@)[k],
            decreases 20 - i,
        {
            let hi = digit_value_of(hex[2 * i]);
            let lo = digit_value_of(hex[2 * i + 1]);
            match (hi, lo) {
                (Some(h), Some(l)) => {
                    bytes[i] = h * 16 + l;
                },
                _ => {
                    return None;
                },
            }
            i += 1;
        }
        let r = Node { bytes };
        assert(r@ =~= unhex(hex@));
        Some(r)
    }

    /// Forty lower-case hexadecimal digits for the twenty bytes.
    pub fn to_hex(&self) -> (r: Vec<u8>)
        ensures
            r@ == hex_of(self@),
    {
        let mut out: Vec<u8> = Vec::with_capacity(40);
        let mut i: usize = 0;
        while i < 20
            invariant
                i <= 20,
                self.bytes@.len() == 20,
                out@.len() == 2 * i,
                forall|k: int| 0 <= k < 2 * i ==> out@[k] == hex_of(self@)[k],
            decreases 20 - i,
        {
            let b = self.bytes[i];
            out.push(hex_digit_of(b / 16));
            out.push(hex_digit_of(b % 16));
            proof {
                assert((2 * i) / 2 == i && (2 * i) % 2 == 0);
                assert((2 * i + 1) / 2 == i && (2 * i + 1) % 2 == 1);
            }
            i += 1;
        }
        assert(out@ =~= hex_of(self@));
        out
    }

    /// Tells whether two nodes hold the same bytes.
    pub fn same(&self, other: &Node) -> (r: bool)
        ensures
            r == (self@ == other@),
    {
        order_bytes(self.bytes.as_slice(), other.bytes.as_slice()) == Order::Equal
    }

    /// Tells whether this node sorts before the other, byte by byte.
    pub fn less_than(&self, other: &Node) -> (r: bool)
        ensures
            r == lex_lt(self@, other@),
    {
        order_bytes(self.bytes.as_slice(), other.bytes.as_slice()) == Order::Less
    }
}

impl PartialEq for Node {
    fn eq(&self, other: &Node) -> (r: bool) {
        self.same(other)
    }
}

impl PartialEqSpecImpl for Node {
    open spec fn obeys_eq_spec() -> bool {
        true
    }

    open spec fn eq_spec(&self, other: &Node) -> bool {
        self@ == other@
    }
}

/// The node with the given bytes.
pub open spec fn node_of(s: Seq<u8>) -> Node {
    choose|n: Node| n@ == s
}

/// The node with the bytes of `n` is `n`.
pub proof fn lemma_node_of(n: Node)
    ensures
        node_of(n@) == n,
{
    lemma_node_ext(node_of(n@), n);
}

/// Two nodes with the same bytes are the same node.
pub proof fn lemma_node_ext(a: Node, b: Node)
    requires
        a@ == b@,
    ensures
        a == b,
{
    assert(a.bytes =~= b.bytes);
}

/// Tells whether `node` occurs in `nodes`.
pub fn contains_node(nodes: &Vec<Node>, node: &Node) -> (r: bool)
    ensures
        r == exists|i: int| 0 <= i < nodes@.len() && #[trigger] nodes@[i]@ == node@,
{
    let mut i: usize = 0;
    while i < nodes.len()
        invariant
            i <= nodes@.len(),
            forall|k: int| 0 <= k < i ==> #[trigger] nodes@[k]@ != node@,
        decreases nodes@.len() - i,
    {
        if nodes[i].same(node) {
            return true;
        }
        i += 1;
    }
    false
}

} // verus!
