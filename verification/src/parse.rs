use crate::order::same_bytes;
use vstd::prelude::*;
use vstd::slice::slice_subrange;
use vstd::string::StringSliceAdditionalSpecFns;

verus! {

/// The number that the first `n` decimal digits of the text stand for.
pub open spec fn digits_value(s: Seq<u8>, n: int) -> nat
    decreases n,
{
    if n <= 0 || n > s.len() {
        0
    } else {
        (digits_value(s, n - 1) * 10 + (s[n - 1] - 48)) as nat
    }
}

/// The text is made of decimal digits, one at least.
pub open spec fn all_digits(s: Seq<u8>) -> bool {
    s.len() > 0 && forall|i: int| 0 <= i < s.len() ==> 48 <= #[trigger] s[i] <= 57
}

/// The number that a text stands for as an integer without a sign: decimal
/// digits, after a plus sign or none.
pub open spec fn unsigned_text(s: Seq<u8>) -> Option<nat> {
    let body = if s.len() > 0 && s[0] == 43 {
        s.subrange(1, s.len() as int)
    } else {
        s
    };
    if all_digits(body) {
        Some(digits_value(body, body.len() as int))
    } else {
        None
    }
}

/// The number that a text stands for as an integer with a sign: decimal
/// digits, after a plus sign, a minus sign or none.
pub open spec fn signed_text(s: Seq<u8>) -> Option<int> {
    if s.len() > 0 && s[0] == 45 {
        let body = s.subrange(1, s.len() as int);
        if all_digits(body) {
            Some(-(digits_value(body, body.len() as int) as int))
        } else {
            None
        }
    } else {
        match unsigned_text(s) {
            Some(v) => Some(v as int),
            None => None,
        }
    }
}

proof fn lemma_digits_grow(s: Seq<u8>, k: int, n: int)
    requires
        0 <= k <= n <= s.len(),
        forall|i: int| 0 <= i < n ==> 48 <= #[trigger] s[i] <= 57,
    ensures
        digits_value(s, k) <= digits_value(s, n),
    decreases n - k,
{
    if k < n {
        lemma_digits_grow(s, k, n - 1);
    }
}

/// Reads decimal digits as a number below 2^64; `None` for any other text
/// and for a greater number.
fn read_digits(body: &[u8]) -> (r: Option<u64>)
    ensures
        r == (if all_digits(body@) && digits_value(body@, body@.len() as int) <= u64::MAX {
            Some(digits_value(body@, body@.len() as int) as u64)
        } else {
            None
        }),
{
    if body.len() == 0 {
        return None;
    }
    let mut acc: u64 = 0;
    let mut i: usize = 0;
    while i < body.len()
        invariant
            i <= body@.len(),
            forall|k: int| 0 <= k < i ==> 48 <= #[trigger] body@[k] <= 57,
            acc == digits_value(body@, i as int),
        decreases body@.len() - i,
    {
        let c = body[i];
        if c < 48 || c > 57 {
            return None;
        }
        let d = (c - 48) as u64;
        if acc > (u64::MAX - d) / 10 {
            proof {
                if all_digits(body@) {
                    lemma_digits_grow(body@, i + 1, body@.len() as int);
                }
            }
            return None;
        }
        acc = acc * 10 + d;
        i += 1;
    }
    Some(acc)
}

/// Reads an integer without a sign that is below 2^64.
pub fn parse_u64(text: &[u8]) -> (r: Option<u64>)
    ensures
        r == (match unsigned_text(text@) {
            Some(v) => if v <= u64::MAX {
                Some(v as u64)
            } else {
                None
            },
            None => None,
        }),
{
    if text.len() > 0 && text[0] == 43 {
        read_digits(slice_subrange(text, 1, text.len()))
    } else {
        read_digits(text)
    }
}

/// Reads an integer without a sign that is at most `max`.
pub fn parse_bounded(text: &[u8], max: u64) -> (r: Option<u64>)
    ensures
        r == (match unsigned_text(text@) {
            Some(v) => if v <= max {
                Some(v as u64)
            } else {
                None
            },
            None => None,
        }),
{
    match parse_u64(text) {
        Some(v) => if v <= max {
            Some(v)
        } else {
            None
        },
        None => None,
    }
}

/// Reads an integer with a sign that fits in 64 bits.
pub fn parse_i64(text: &[u8]) -> (r: Option<i64>)
    ensures
        r == (match signed_text(text@) {
            Some(v) => if i64::MIN <= v <= i64::MAX {
                Some(v as i64)
            } else {
                None
            },
            None => None,
        }),
{
    if text.len() > 0 && text[0] == 45 {
        match read_digits(slice_subrange(text, 1, text.len())) {
            Some(v) => if v <= 0x7fff_ffff_ffff_ffff {
                Some(-(v as i64))
            } else if v == 0x8000_0000_0000_0000 {
                Some(i64::MIN)
            } else {
                None
            },
            None => None,
        }
    } else {
        match parse_u64(text) {
            Some(v) => if v <= 0x7fff_ffff_ffff_ffff {
                Some(v as i64)
            } else {
                None
            },
            None => None,
        }
    }
}

/// Reads an integer with a sign that fits in 32 bits.
pub fn parse_i32(text: &[u8]) -> (r: Option<i32>)
    ensures
        r == (match signed_text(text@) {
            Some(v) => if i32::MIN <= v <= i32::MAX {
                Some(v as i32)
            } else {
                None
            },
            None => None,
        }),
{
    match parse_i64(text) {
        Some(v) => if -0x8000_0000 <= v && v <= 0x7fff_ffff {
            Some(v as i32)
        } else {
            None
        },
        None => None,
    }
}

/// Reads `true` or `false`.
pub fn parse_bool(text: &[u8]) -> (r: Option<bool>)
    ensures
        r == (if text@ == "true".spec_bytes() {
            Some(true)
        } else if text@ == "false".spec_bytes() {
            Some(false)
        } else {
            None
        }),
{
    if same_bytes(text, "true".as_bytes()) {
        Some(true)
    } else if same_bytes(text, "false".as_bytes()) {
        Some(false)
    } else {
        None
    }
}

} // verus!
