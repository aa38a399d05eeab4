//! Reading the top level of a JSON text (RFC 8259): whether the text is one
//! JSON value, and the keys of its top-level object.
//!
//! The reader is conclusive on the JSON texts that any conforming parser reads
//! alike: object keys without escapes, `\u` escapes outside the surrogate
//! range, numbers of at most 100 integer and 100 fraction digits with an
//! exponent of at most two digits, and at most 64 nested arrays and objects.
//! On any other text it gives no answer.

use vstd::prelude::*;
use vstd::string::*;
use crate::key_order::key_views;

verus! {

broadcast use vstd::string::group_string_axioms;

/// How deeply arrays and objects may nest in a text the reader answers for.
pub const MAX_NESTING: usize = 64;

/// JSON whitespace: space, tab, line feed and carriage return.
pub open spec fn is_json_ws(c: char) -> bool {
    c == ' ' || c == '\t' || c == '\n' || c == '\r'
}

pub open spec fn is_digit(c: char) -> bool {
    '0' <= c && c <= '9'
}

pub open spec fn is_hex_digit(c: char) -> bool {
    is_digit(c) || ('a' <= c && c <= 'f') || ('A' <= c && c <= 'F')
}

/// The characters that may follow `\` in a string, other than `u`.
pub open spec fn is_short_escape(c: char) -> bool {
    c == '"' || c == '\\' || c == '/' || c == 'b' || c == 'f' || c == 'n' || c == 'r' || c == 't'
}

/// The first two hex digits `a`, `b` of a `\u` escape in the range D800-DFFF.
pub open spec fn is_surrogate_escape(a: char, b: char) -> bool {
    (a == 'd' || a == 'D') && (('8' <= b && b <= '9') || ('a' <= b && b <= 'f') || ('A' <= b
        && b <= 'F'))
}

/// A character that stands for itself inside a JSON string.
pub open spec fn is_plain_char(c: char) -> bool {
    c != '"' && c != '\\' && (c as u32) >= 0x20
}

/// The first position at or after `i` that does not hold JSON whitespace.
pub open spec fn skip_ws(s: Seq<char>, i: int) -> int
    decreases s.len() - i,
{
    if 0 <= i < s.len() && is_json_ws(s[i]) {
        skip_ws(s, i + 1)
    } else {
        i
    }
}

/// The first position at or after `i` that does not hold a decimal digit.
pub open spec fn digits_end(s: Seq<char>, i: int) -> int
    decreases s.len() - i,
{
    if 0 <= i < s.len() && is_digit(s[i]) {
        digits_end(s, i + 1)
    } else {
        i
    }
}

/// The end of a string whose content starts at `i` (just after its opening
/// quote): the position after the closing quote.
pub open spec fn string_tail_end(s: Seq<char>, i: int) -> Option<int>
    decreases s.len() - i,
{
    if i < 0 || i >= s.len() {
        None
    } else if s[i] == '"' {
        Some(i + 1)
    } else if s[i] == '\\' {
        if i + 1 < s.len() && is_short_escape(s[i + 1]) {
            string_tail_end(s, i + 2)
        } else if i + 5 < s.len() && s[i + 1] == 'u' && is_hex_digit(s[i + 2]) && is_hex_digit(
            s[i + 3],
        ) && is_hex_digit(s[i + 4]) && is_hex_digit(s[i + 5]) && !is_surrogate_escape(
            s[i + 2],
            s[i + 3],
        ) {
            string_tail_end(s, i + 6)
        } else {
            None
        }
    } else if (s[i] as u32) < 0x20 {
        None
    } else {
        string_tail_end(s, i + 1)
    }
}

/// The end of a key whose content starts at `i` and holds no escape: the
/// position after its closing quote.
pub open spec fn key_tail_end(s: Seq<char>, i: int) -> Option<int>
    decreases s.len() - i,
{
    if i < 0 || i >= s.len() {
        None
    } else if s[i] == '"' {
        Some(i + 1)
    } else if is_plain_char(s[i]) {
        key_tail_end(s, i + 1)
    } else {
        None
    }
}

/// The end of a number that starts at `i`.
pub open spec fn number_end(s: Seq<char>, i: int) -> Option<int> {
    let a = if 0 <= i < s.len() && s[i] == '-' {
        i + 1
    } else {
        i
    };
    if !(0 <= a < s.len() && is_digit(s[a])) {
        None
    } else {
        let b = if s[a] == '0' {
            a + 1
        } else {
            digits_end(s, a)
        };
        let has_fraction = b < s.len() && s[b] == '.';
        let c = if has_fraction {
            digits_end(s, b + 1)
        } else {
            b
        };
        if b - a > 100 || (has_fraction && (c == b + 1 || c - b - 1 > 100)) {
            None
        } else if c < s.len() && (s[c] == 'e' || s[c] == 'E') {
            let e0 = if c + 1 < s.len() && (s[c + 1] == '+' || s[c + 1] == '-') {
                c + 2
            } else {
                c + 1
            };
            let e1 = digits_end(s, e0);
            if e1 == e0 || e1 - e0 > 2 {
                None
            } else {
                Some(e1)
            }
        } else {
            Some(c)
        }
    }
}

/// The end of one of the literals `true`, `false`, `null` starting at `i`.
pub open spec fn literal_end(s: Seq<char>, i: int) -> Option<int> {
    if 0 <= i && i + 4 <= s.len() && s[i] == 't' && s[i + 1] == 'r' && s[i + 2] == 'u' && s[i
        + 3] == 'e' {
        Some(i + 4)
    } else if 0 <= i && i + 5 <= s.len() && s[i] == 'f' && s[i + 1] == 'a' && s[i + 2] == 'l'
        && s[i + 3] == 's' && s[i + 4] == 'e' {
        Some(i + 5)
    } else if 0 <= i && i + 4 <= s.len() && s[i] == 'n' && s[i + 1] == 'u' && s[i + 2] == 'l'
        && s[i + 3] == 'l' {
        Some(i + 4)
    } else {
        None
    }
}

pub proof fn lemma_skip_ws_bounds(s: Seq<char>, i: int)
    ensures
        skip_ws(s, i) >= i,
        0 <= i <= s.len() ==> skip_ws(s, i) <= s.len(),
        skip_ws(s, i) < s.len() && 0 <= i ==> !is_json_ws(s[skip_ws(s, i)]),
    decreases s.len() - i,
{
    if 0 <= i < s.len() && is_json_ws(s[i]) {
        lemma_skip_ws_bounds(s, i + 1);
    }
}

pub proof fn lemma_key_tail_end_bounds(s: Seq<char>, i: int)
    ensures
        key_tail_end(s, i) matches Some(k) ==> i < k <= s.len(),
    decreases s.len() - i,
{
    if 0 <= i < s.len() && s[i] != '"' && is_plain_char(s[i]) {
        lemma_key_tail_end_bounds(s, i + 1);
    }
}

/// The end of the JSON value that starts at `i`, with at most `d` levels of
/// arrays and objects.
pub open spec fn value_end(s: Seq<char>, i: int, d: nat) -> Option<int>
    decreases s.len() - i, 1nat,
{
    if i < 0 || i >= s.len() {
        None
    } else if s[i] == '"' {
        string_tail_end(s, i + 1)
    } else if s[i] == '{' {
        if d == 0 {
            None
        } else {
            object_rest_end(s, i + 1, (d - 1) as nat)
        }
    } else if s[i] == '[' {
        if d == 0 {
            None
        } else {
            array_rest_end(s, i + 1, (d - 1) as nat)
        }
    } else if s[i] == '-' || is_digit(s[i]) {
        number_end(s, i)
    } else {
        literal_end(s, i)
    }
}

/// The end of an object whose content starts at `i` (just after its `{`).
pub open spec fn object_rest_end(s: Seq<char>, i: int, d: nat) -> Option<int>
    decreases s.len() - i, 3nat,
{
    let j = skip_ws(s, i);
    proof {
        lemma_skip_ws_bounds(s, i);
    }
    if 0 <= j < s.len() && s[j] == '}' {
        Some(j + 1)
    } else {
        members_end(s, j, d)
    }
}

/// The end of the members of an object, the first of which starts at `j`:
/// the position after the closing `}`.
pub open spec fn members_end(s: Seq<char>, j: int, d: nat) -> Option<int>
    decreases s.len() - j, 2nat,
{
    if !(0 <= j < s.len() && s[j] == '"') {
        None
    } else {
        match key_tail_end(s, j + 1) {
            None => None,
            Some(k) => {
                proof {
                    lemma_key_tail_end_bounds(s, j + 1);
                    lemma_skip_ws_bounds(s, k);
                }
                let c = skip_ws(s, k);
                if !(c < s.len() && s[c] == ':') {
                    None
                } else {
                    proof {
                        lemma_skip_ws_bounds(s, c + 1);
                    }
                    let v = skip_ws(s, c + 1);
                    match value_end(s, v, d) {
                        None => None,
                        Some(e) => {
                            let t = skip_ws(s, e);
                            if 0 <= t < s.len() && s[t] == '}' {
                                Some(t + 1)
                            } else if 0 <= t < s.len() && s[t] == ',' && t >= j {
                                proof {
                                    lemma_skip_ws_bounds(s, t + 1);
                                }
                                members_end(s, skip_ws(s, t + 1), d)
                            } else {
                                None
                            }
                        },
                    }
                }
            },
        }
    }
}

/// The end of an array whose content starts at `i` (just after its `[`).
pub open spec fn array_rest_end(s: Seq<char>, i: int, d: nat) -> Option<int>
    decreases s.len() - i, 3nat,
{
    let j = skip_ws(s, i);
    proof {
        lemma_skip_ws_bounds(s, i);
    }
    if 0 <= j < s.len() && s[j] == ']' {
        Some(j + 1)
    } else {
        elements_end(s, j, d)
    }
}

/// The end of the elements of an array, the first of which starts at `j`:
/// the position after the closing `]`.
pub open spec fn elements_end(s: Seq<char>, j: int, d: nat) -> Option<int>
    decreases s.len() - j, 2nat,
{
    if !(0 <= j < s.len()) {
        None
    } else {
        match value_end(s, j, d) {
            None => None,
            Some(e) => {
                let t = skip_ws(s, e);
                if 0 <= t < s.len() && s[t] == ']' {
                    Some(t + 1)
                } else if 0 <= t < s.len() && s[t] == ',' && t >= j {
                    proof {
                        lemma_skip_ws_bounds(s, t + 1);
                    }
                    elements_end(s, skip_ws(s, t + 1), d)
                } else {
                    None
                }
            },
        }
    }
}

/// The members of a top-level object, the first of which starts at `j`: the
/// position after the closing `}` and the keys, in text order.
pub open spec fn top_members(s: Seq<char>, j: int, d: nat) -> Option<(int, Seq<Seq<char>>)>
    decreases s.len() - j,
{
    if !(0 <= j < s.len() && s[j] == '"') {
        None
    } else {
        match key_tail_end(s, j + 1) {
            None => None,
            Some(k) => {
                let c = skip_ws(s, k);
                if !(c < s.len() && s[c] == ':') {
                    None
                } else {
                    let v = skip_ws(s, c + 1);
                    match value_end(s, v, d) {
                        None => None,
                        Some(e) => {
                            let t = skip_ws(s, e);
                            let key = s.subrange(j + 1, k - 1);
                            if 0 <= t < s.len() && s[t] == '}' {
                                Some((t + 1, seq![key]))
                            } else if 0 <= t < s.len() && s[t] == ',' && t >= j {
                                proof {
                                    lemma_skip_ws_bounds(s, t + 1);
                                }
                                match top_members(s, skip_ws(s, t + 1), d) {
                                    None => None,
                                    Some((end, rest)) => Some((end, seq![key] + rest)),
                                }
                            } else {
                                None
                            }
                        },
                    }
                }
            },
        }
    }
}

/// What the JSON text `s` holds at its top level, when the reader answers
/// for it: `Some(Some(keys))` for an object with these keys in text order,
/// `Some(None)` for another value; `None` when it gives no answer.
pub open spec fn json_reading(s: Seq<char>) -> Option<Option<Seq<Seq<char>>>> {
    let i = skip_ws(s, 0);
    if 0 <= i < s.len() && s[i] == '{' {
        let j = skip_ws(s, i + 1);
        if 0 <= j < s.len() && s[j] == '}' {
            if skip_ws(s, j + 1) == s.len() {
                Some(Some(Seq::empty()))
            } else {
                None
            }
        } else {
            match top_members(s, j, (MAX_NESTING - 1) as nat) {
                Some((e, keys)) => if skip_ws(s, e) == s.len() {
                    Some(Some(keys))
                } else {
                    None
                },
                None => None,
            }
        }
    } else {
        match value_end(s, i, MAX_NESTING as nat) {
            Some(e) => if skip_ws(s, e) == s.len() {
                Some(None)
            } else {
                None
            },
            None => None,
        }
    }
}

/// The characters of `text`, in order.
pub fn text_chars(text: &str) -> (cs: Vec<char>)
    ensures
        cs@ == text@,
{
    let mut cs: Vec<char> = Vec::new();
    for c in it: text.chars()
        invariant
            cs@ == it.seq().take(it.index()),
            it.seq() == text@,
            cs@.len() == it.index(),
    {
        cs.push(c);
    }
    assert(cs@ =~= text@);
    cs
}

fn json_ws(c: char) -> (b: bool)
    ensures
        b == is_json_ws(c),
{
    c == ' ' || c == '\t' || c == '\n' || c == '\r'
}

fn digit(c: char) -> (b: bool)
    ensures
        b == is_digit(c),
{
    '0' <= c && c <= '9'
}

fn hex_digit(c: char) -> (b: bool)
    ensures
        b == is_hex_digit(c),
{
    ('0' <= c && c <= '9') || ('a' <= c && c <= 'f') || ('A' <= c && c <= 'F')
}

fn short_escape(c: char) -> (b: bool)
    ensures
        b == is_short_escape(c),
{
    c == '"' || c == '\\' || c == '/' || c == 'b' || c == 'f' || c == 'n' || c == 'r' || c == 't'
}

fn surrogate_escape(a: char, b: char) -> (r: bool)
    ensures
        r == is_surrogate_escape(a, b),
{
    (a == 'd' || a == 'D') && (('8' <= b && b <= '9') || ('a' <= b && b <= 'f') || ('A' <= b
        && b <= 'F'))
}

fn skip_ws_at(s: &Vec<char>, i: usize) -> (j: usize)
    requires
        i <= s@.len(),
    ensures
        j == skip_ws(s@, i as int),
        i <= j <= s@.len(),
{
    let n = s.len();
    let mut j = i;
    while j < n && json_ws(s[j])
        invariant
            n == s@.len(),
            i <= j <= n,
            skip_ws(s@, j as int) == skip_ws(s@, i as int),
        decreases n - j,
    {
        j = j + 1;
    }
    j
}

fn digits_end_at(s: &Vec<char>, i: usize) -> (j: usize)
    requires
        i <= s@.len(),
    ensures
        j == digits_end(s@, i as int),
        i <= j <= s@.len(),
{
    let n = s.len();
    let mut j = i;
    while j < n && digit(s[j])
        invariant
            n == s@.len(),
            i <= j <= n,
            digits_end(s@, j as int) == digits_end(s@, i as int),
        decreases n - j,
    {
        j = j + 1;
    }
    j
}

/// Maps a position found by the reader to its spec counterpart.
pub open spec fn same_end(r: Option<usize>, spec: Option<int>) -> bool {
    match r {
        Some(e) => spec == Some(e as int),
        None => spec is None,
    }
}

fn string_tail_end_at(s: &Vec<char>, i: usize) -> (r: Option<usize>)
    requires
        i <= s@.len(),
    ensures
        same_end(r, string_tail_end(s@, i as int)),
        r matches Some(e) ==> e <= s@.len(),
{
    let n = s.len();
    let mut k = i;
    loop
        invariant
            n == s@.len(),
            i <= k <= n,
            string_tail_end(s@, k as int) == string_tail_end(s@, i as int),
        decreases n - k,
    {
        if k >= n {
            return None;
        }
        let c = s[k];
        if c == '"' {
            return Some(k + 1);
        } else if c == '\\' {
            if k + 1 < n && short_escape(s[k + 1]) {
                k = k + 2;
            } else if n - k > 5 && s[k + 1] == 'u' && hex_digit(s[k + 2]) && hex_digit(s[k + 3])
                && hex_digit(s[k + 4]) && hex_digit(s[k + 5]) && !surrogate_escape(
                s[k + 2],
                s[k + 3],
            ) {
                k = k + 6;
            } else {
                return None;
            }
        } else if (c as u32) < 0x20 {
            return None;
        } else {
            k = k + 1;
        }
    }
}

fn key_tail_end_at(s: &Vec<char>, i: usize) -> (r: Option<usize>)
    requires
        i <= s@.len(),
    ensures
        same_end(r, key_tail_end(s@, i as int)),
        r matches Some(e) ==> i < e <= s@.len(),
{
    let n = s.len();
    let mut k = i;
    loop
        invariant
            n == s@.len(),
            i <= k <= n,
            key_tail_end(s@, k as int) == key_tail_end(s@, i as int),
        decreases n - k,
    {
        if k >= n {
            return None;
        }
        let c = s[k];
        if c == '"' {
            return Some(k + 1);
        } else if c != '\\' && (c as u32) >= 0x20 {
            k = k + 1;
        } else {
            return None;
        }
    }
}

fn number_end_at(s: &Vec<char>, i: usize) -> (r: Option<usize>)
    requires
        i <= s@.len(),
    ensures
        same_end(r, number_end(s@, i as int)),
        r matches Some(e) ==> e <= s@.len(),
{
    let n = s.len();
    let a = if i < n && s[i] == '-' {
        i + 1
    } else {
        i
    };
    if !(a < n && digit(s[a])) {
        return None;
    }
    let b = if s[a] == '0' {
        a + 1
    } else {
        digits_end_at(s, a)
    };
    let has_fraction = b < n && s[b] == '.';
    let c = if has_fraction {
        digits_end_at(s, b + 1)
    } else {
        b
    };
    if b - a > 100 || (has_fraction && (c == b + 1 || c - b - 1 > 100)) {
        return None;
    }
    if c < n && (s[c] == 'e' || s[c] == 'E') {
        let e0 = if c + 1 < n && (s[c + 1] == '+' || s[c + 1] == '-') {
            c + 2
        } else {
            c + 1
        };
        let e1 = digits_end_at(s, e0);
        if e1 == e0 || e1 - e0 > 2 {
            None
        } else {
            Some(e1)
        }
    } else {
        Some(c)
    }
}

fn literal_end_at(s: &Vec<char>, i: usize) -> (r: Option<usize>)
    requires
        i <= s@.len(),
    ensures
        same_end(r, literal_end(s@, i as int)),
        r matches Some(e) ==> e <= s@.len(),
{
    let n = s.len();
    if n - i >= 4 && s[i] == 't' && s[i + 1] == 'r' && s[i + 2] == 'u' && s[i + 3] == 'e' {
        Some(i + 4)
    } else if n - i >= 5 && s[i] == 'f' && s[i + 1] == 'a' && s[i + 2] == 'l' && s[i + 3] == 's'
        && s[i + 4] == 'e' {
        Some(i + 5)
    } else if n - i >= 4 && s[i] == 'n' && s[i + 1] == 'u' && s[i + 2] == 'l' && s[i + 3]
        == 'l' {
        Some(i + 4)
    } else {
        None
    }
}

fn value_end_at(s: &Vec<char>, i: usize, d: usize) -> (r: Option<usize>)
    requires
        i <= s@.len(),
    ensures
        same_end(r, value_end(s@, i as int, d as nat)),
        r matches Some(e) ==> e <= s@.len(),
    decreases d, 0nat,
{
    let n = s.len();
    if i >= n {
        return None;
    }
    let c = s[i];
    if c == '"' {
        string_tail_end_at(s, i + 1)
    } else if c == '{' {
        if d == 0 {
            None
        } else {
            object_rest_end_at(s, i + 1, d - 1)
        }
    } else if c == '[' {
        if d == 0 {
            None
        } else {
            array_rest_end_at(s, i + 1, d - 1)
        }
    } else if c == '-' || digit(c) {
        number_end_at(s, i)
    } else {
        literal_end_at(s, i)
    }
}

fn object_rest_end_at(s: &Vec<char>, i: usize, d: usize) -> (r: Option<usize>)
    requires
        i <= s@.len(),
    ensures
        same_end(r, object_rest_end(s@, i as int, d as nat)),
        r matches Some(e) ==> e <= s@.len(),
    decreases d, 2nat,
{
    let j = skip_ws_at(s, i);
    if j < s.len() && s[j] == '}' {
        Some(j + 1)
    } else {
        members_end_at(s, j, d)
    }
}

fn members_end_at(s: &Vec<char>, j: usize, d: usize) -> (r: Option<usize>)
    requires
        j <= s@.len(),
    ensures
        same_end(r, members_end(s@, j as int, d as nat)),
        r matches Some(e) ==> e <= s@.len(),
    decreases d, 1nat,
{
    let n = s.len();
    let mut m = j;
    loop
        invariant
            n == s@.len(),
            m <= n,
            members_end(s@, m as int, d as nat) == members_end(s@, j as int, d as nat),
        decreases n - m,
    {
        if !(m < n && s[m] == '"') {
            return None;
        }
        let k = match key_tail_end_at(s, m + 1) {
            None => {
                return None;
            },
            Some(k) => k,
        };
        let c = skip_ws_at(s, k);
        if !(c < n && s[c] == ':') {
            return None;
        }
        let v = skip_ws_at(s, c + 1);
        let e = match value_end_at(s, v, d) {
            None => {
                return None;
            },
            Some(e) => e,
        };
        let t = skip_ws_at(s, e);
        if t < n && s[t] == '}' {
            return Some(t + 1);
        } else if t < n && s[t] == ',' && t >= m {
            m = skip_ws_at(s, t + 1);
        } else {
            return None;
        }
    }
}

fn array_rest_end_at(s: &Vec<char>, i: usize, d: usize) -> (r: Option<usize>)
    requires
        i <= s@.len(),
    ensures
        same_end(r, array_rest_end(s@, i as int, d as nat)),
        r matches Some(e) ==> e <= s@.len(),
    decreases d, 2nat,
{
    let j = skip_ws_at(s, i);
    if j < s.len() && s[j] == ']' {
        Some(j + 1)
    } else {
        elements_end_at(s, j, d)
    }
}

fn elements_end_at(s: &Vec<char>, j: usize, d: usize) -> (r: Option<usize>)
    requires
        j <= s@.len(),
    ensures
        same_end(r, elements_end(s@, j as int, d as nat)),
        r matches Some(e) ==> e <= s@.len(),
    decreases d, 1nat,
{
    let n = s.len();
    let mut m = j;
    loop
        invariant
            n == s@.len(),
            m <= n,
            elements_end(s@, m as int, d as nat) == elements_end(s@, j as int, d as nat),
        decreases n - m,
    {
        if m >= n {
            return None;
        }
        let e = match value_end_at(s, m, d) {
            None => {
                return None;
            },
            Some(e) => e,
        };
        let t = skip_ws_at(s, e);
        if t < n && s[t] == ']' {
            return Some(t + 1);
        } else if t < n && s[t] == ',' && t >= m {
            m = skip_ws_at(s, t + 1);
        } else {
            return None;
        }
    }
}

fn top_members_at(text: &str, s: &Vec<char>, j: usize, d: usize) -> (r: Option<
    (usize, Vec<String>),
>)
    requires
        s@ == text@,
        j <= s@.len(),
    ensures
        match top_members(s@, j as int, d as nat) {
            None => r is None,
            Some((e, keys)) => r matches Some((re, rk)) && re == e && key_views(rk@) == keys,
        },
        r matches Some((e, _)) ==> e <= s@.len(),
{
    let n = s.len();
    let mut m = j;
    let mut acc: Vec<String> = Vec::new();
    loop
        invariant
            n == s@.len(),
            s@ == text@,
            m <= n,
            top_members(s@, j as int, d as nat) == match top_members(s@, m as int, d as nat) {
                None => None,
                Some((e, rest)) => Some((e, key_views(acc@) + rest)),
            },
        decreases n - m,
    {
        if !(m < n && s[m] == '"') {
            return None;
        }
        let k = match key_tail_end_at(s, m + 1) {
            None => {
                return None;
            },
            Some(k) => k,
        };
        let c = skip_ws_at(s, k);
        if !(c < n && s[c] == ':') {
            return None;
        }
        let v = skip_ws_at(s, c + 1);
        let e = match value_end_at(s, v, d) {
            None => {
                return None;
            },
            Some(e) => e,
        };
        let t = skip_ws_at(s, e);
        let key = text.substring_char(m + 1, k - 1).to_owned();
        assert(key@ == s@.subrange(m + 1, k - 1));
        let ghost before = key_views(acc@);
        acc.push(key);
        assert(key_views(acc@) =~= before + seq![key@]);
        if t < n && s[t] == '}' {
            return Some((t + 1, acc));
        } else if t < n && s[t] == ',' && t >= m {
            let next = skip_ws_at(s, t + 1);
            proof {
                match top_members(s@, next as int, d as nat) {
                    None => {},
                    Some((e2, rest)) => {
                        assert(before + (seq![key@] + rest) =~= key_views(acc@) + rest);
                    },
                }
            }
            m = next;
        } else {
            return None;
        }
    }
}

/// Reads the top level of the JSON text `text`: `Some(Some(keys))` for an
/// object with these keys in text order, `Some(None)` for another value,
/// `None` when the reader gives no answer.
pub fn read_json_top_level(text: &str) -> (r: Option<Option<Vec<String>>>)
    ensures
        match json_reading(text@) {
            None => r is None,
            Some(None) => r matches Some(None),
            Some(Some(keys)) => r matches Some(Some(v)) && key_views(v@) == keys,
        },
{
    let s = text_chars(text);
    let n = s.len();
    let i = skip_ws_at(&s, 0);
    if i < n && s[i] == '{' {
        let j = skip_ws_at(&s, i + 1);
        if j < n && s[j] == '}' {
            if skip_ws_at(&s, j + 1) == n {
                let keys: Vec<String> = Vec::new();
                assert(key_views(keys@) =~= Seq::<Seq<char>>::empty());
                Some(Some(keys))
            } else {
                None
            }
        } else {
            match top_members_at(text, &s, j, MAX_NESTING - 1) {
                Some((e, keys)) => if skip_ws_at(&s, e) == n {
                    Some(Some(keys))
                } else {
                    None
                },
                None => None,
            }
        }
    } else {
        match value_end_at(&s, i, MAX_NESTING) {
            Some(e) => if skip_ws_at(&s, e) == n {
                Some(None)
            } else {
                None
            },
            None => None,
        }
    }
}

/// `x` stands in `s` from position `p` on.
pub open spec fn occurs_at(s: Seq<char>, p: int, x: Seq<char>) -> bool {
    &&& 0 <= p
    &&& p + x.len() <= s.len()
    &&& forall|i: int| 0 <= i < x.len() ==> s[p + i] == x[i]
}

/// Every character of `w` is JSON whitespace.
pub open spec fn all_json_ws(w: Seq<char>) -> bool {
    forall|i: int| 0 <= i < w.len() ==> is_json_ws(w[i])
}

/// Every character of `c` stands for itself inside a JSON string.
pub open spec fn all_plain(c: Seq<char>) -> bool {
    forall|i: int| 0 <= i < c.len() ==> is_plain_char(c[i])
}

/// The JSON string literal whose content is `c`.
pub open spec fn quoted(c: Seq<char>) -> Seq<char> {
    seq!['"'] + c + seq!['"']
}

/// One member of an object written out as `w1 "key" w2 : w3 value w4`, for
/// the parts `(w1, key, w2, w3, value, w4)`: `key` is the key's content and
/// `value` the text of the value.
pub open spec fn member_text(
    m: (Seq<char>, Seq<char>, Seq<char>, Seq<char>, Seq<char>, Seq<char>),
) -> Seq<char> {
    m.0 + quoted(m.1) + m.2 + seq![':'] + m.3 + m.4 + m.5
}

/// `v` is a string literal without escapes.
pub open spec fn is_plain_string_text(v: Seq<char>) -> bool {
    &&& v.len() >= 2
    &&& v[0] == '"'
    &&& v[v.len() - 1] == '"'
    &&& all_plain(v.subrange(1, v.len() - 1))
}

/// The parts of a member are whitespace where whitespace goes, its key is a
/// string content without escapes and its value a string literal without
/// escapes.
pub open spec fn flat_member(
    m: (Seq<char>, Seq<char>, Seq<char>, Seq<char>, Seq<char>, Seq<char>),
) -> bool {
    &&& all_json_ws(m.0)
    &&& all_plain(m.1)
    &&& all_json_ws(m.2)
    &&& all_json_ws(m.3)
    &&& is_plain_string_text(m.4)
    &&& all_json_ws(m.5)
}

/// The members `ms` written out one after the other, separated by commas.
pub open spec fn members_text(
    ms: Seq<(Seq<char>, Seq<char>, Seq<char>, Seq<char>, Seq<char>, Seq<char>)>,
) -> Seq<char>
    decreases ms.len(),
{
    if ms.len() == 0 {
        Seq::empty()
    } else if ms.len() == 1 {
        member_text(ms[0])
    } else {
        member_text(ms[0]) + seq![','] + members_text(ms.drop_first())
    }
}

/// `v` is the text of an object, `{ inner members }`, whose members are flat.
pub open spec fn is_flat_object_text(v: Seq<char>) -> bool {
    exists|inner: Seq<char>, ms: Seq<(Seq<char>, Seq<char>, Seq<char>, Seq<char>, Seq<char>, Seq<char>)>|
        {
            &&& all_json_ws(inner)
            &&& forall|i: int| 0 <= i < ms.len() ==> flat_member(#[trigger] ms[i])
            &&& v == seq!['{'] + inner + members_text(ms) + seq!['}']
        }
}

/// A member as the models cache writes one: whitespace where whitespace goes,
/// a key without escapes, and as value a string literal without escapes or an
/// object of such members.
pub open spec fn member_well_formed(
    m: (Seq<char>, Seq<char>, Seq<char>, Seq<char>, Seq<char>, Seq<char>),
) -> bool {
    &&& all_json_ws(m.0)
    &&& all_plain(m.1)
    &&& all_json_ws(m.2)
    &&& all_json_ws(m.3)
    &&& (is_plain_string_text(m.4) || is_flat_object_text(m.4))
    &&& all_json_ws(m.5)
}

/// The text of an object with members `ms`: `lead { inner members } trail`.
pub open spec fn object_text(
    lead: Seq<char>,
    inner: Seq<char>,
    ms: Seq<(Seq<char>, Seq<char>, Seq<char>, Seq<char>, Seq<char>, Seq<char>)>,
    trail: Seq<char>,
) -> Seq<char> {
    lead + seq!['{'] + inner + members_text(ms) + seq!['}'] + trail
}

/// The keys of the members `ms`, in order.
pub open spec fn member_keys(
    ms: Seq<(Seq<char>, Seq<char>, Seq<char>, Seq<char>, Seq<char>, Seq<char>)>,
) -> Seq<Seq<char>> {
    ms.map_values(|m: (Seq<char>, Seq<char>, Seq<char>, Seq<char>, Seq<char>, Seq<char>)| m.1)
}

proof fn lemma_occurs_split(s: Seq<char>, p: int, a: Seq<char>, b: Seq<char>)
    requires
        occurs_at(s, p, a + b),
    ensures
        occurs_at(s, p, a),
        occurs_at(s, p + a.len(), b),
{
    assert forall|i: int| 0 <= i < a.len() implies s[p + i] == a[i] by {
        assert((a + b)[i] == a[i]);
    }
    assert forall|i: int| 0 <= i < b.len() implies s[p + a.len() + i] == b[i] by {
        assert((a + b)[a.len() + i] == b[i]);
    }
}

proof fn lemma_skip_ws_through(s: Seq<char>, p: int, w: Seq<char>)
    requires
        occurs_at(s, p, w),
        all_json_ws(w),
    ensures
        skip_ws(s, p) == skip_ws(s, p + w.len()),
    decreases w.len(),
{
    if w.len() > 0 {
        assert(s[p] == w[0]);
        assert(occurs_at(s, p + 1, w.drop_first())) by {
            assert forall|i: int| 0 <= i < w.drop_first().len() implies s[p + 1 + i]
                == w.drop_first()[i] by {
                assert(s[p + (i + 1)] == w[i + 1]);
            }
        }
        lemma_skip_ws_through(s, p + 1, w.drop_first());
    }
}

proof fn lemma_key_tail_through(s: Seq<char>, p: int, c: Seq<char>)
    requires
        occurs_at(s, p, c + seq!['"']),
        all_plain(c),
    ensures
        key_tail_end(s, p) == Some(p + c.len() + 1),
        string_tail_end(s, p) == Some(p + c.len() + 1),
    decreases c.len(),
{
    if c.len() == 0 {
        assert(s[p] == (c + seq!['"'])[0]);
    } else {
        assert(s[p] == (c + seq!['"'])[0]);
        assert(is_plain_char(c[0]));
        assert(occurs_at(s, p + 1, c.drop_first() + seq!['"'])) by {
            assert forall|i: int| 0 <= i < (c.drop_first() + seq!['"']).len() implies s[p + 1 + i]
                == (c.drop_first() + seq!['"'])[i] by {
                assert(s[p + (i + 1)] == (c + seq!['"'])[i + 1]);
            }
        }
        lemma_key_tail_through(s, p + 1, c.drop_first());
    }
}

/// A member written at `q` and followed by a non-whitespace character is read
/// as its key and its value, provided its value reads to its own end.
proof fn lemma_member_read_with(
    s: Seq<char>,
    q: int,
    m: (Seq<char>, Seq<char>, Seq<char>, Seq<char>, Seq<char>, Seq<char>),
    d: nat,
)
    requires
        all_json_ws(m.0),
        all_plain(m.1),
        all_json_ws(m.2),
        all_json_ws(m.3),
        all_json_ws(m.5),
        occurs_at(s, q, member_text(m)),
        q + member_text(m).len() < s.len(),
        !is_json_ws(s[q + member_text(m).len()]),
        ({
            let v = q + m.0.len() + m.1.len() + 2 + m.2.len() + 1 + m.3.len();
            value_end(s, v, d) == Some(v + m.4.len())
        }),
    ensures
        ({
            let j = q + m.0.len();
            let k = j + m.1.len() + 2;
            let c = k + m.2.len();
            let v = c + 1 + m.3.len();
            let e = v + m.4.len();
            &&& skip_ws(s, q) == j
            &&& s[j] == '"'
            &&& key_tail_end(s, j + 1) == Some(k)
            &&& s.subrange(j + 1, k - 1) == m.1
            &&& skip_ws(s, k) == c
            &&& s[c] == ':'
            &&& skip_ws(s, c + 1) == v
            &&& value_end(s, v, d) == Some(e)
            &&& skip_ws(s, e) == q + member_text(m).len()
        }),
{
    let j = q + m.0.len();
    let k = j + m.1.len() + 2;
    let c = k + m.2.len();
    let v = c + 1 + m.3.len();
    let e = v + m.4.len();
    let p1 = m.0 + quoted(m.1);
    let p2 = p1 + m.2;
    let p3 = p2 + seq![':'];
    let p4 = p3 + m.3;
    let p5 = p4 + m.4;
    lemma_occurs_split(s, q, p5, m.5);
    lemma_occurs_split(s, q, p4, m.4);
    lemma_occurs_split(s, q, p3, m.3);
    lemma_occurs_split(s, q, p2, seq![':']);
    lemma_occurs_split(s, q, p1, m.2);
    lemma_occurs_split(s, q, m.0, quoted(m.1));
    assert(quoted(m.1) =~= seq!['"'] + (m.1 + seq!['"']));
    lemma_occurs_split(s, j, seq!['"'], m.1 + seq!['"']);
    lemma_occurs_split(s, j + 1, m.1, seq!['"']);
    lemma_skip_ws_through(s, q, m.0);
    assert(s[j] == seq!['"'][0]);
    lemma_key_tail_through(s, j + 1, m.1);
    assert(s.subrange(j + 1, k - 1) =~= m.1);
    lemma_skip_ws_through(s, k, m.2);
    assert(s[c] == seq![':'][0]);
    lemma_skip_ws_through(s, c + 1, m.3);
    lemma_skip_ws_through(s, e, m.5);
}

/// A string literal without escapes, written at `v`, reads to its end.
proof fn lemma_plain_string_value(s: Seq<char>, v: int, t: Seq<char>, d: nat)
    requires
        is_plain_string_text(t),
        occurs_at(s, v, t),
    ensures
        value_end(s, v, d) == Some(v + t.len()),
{
    let c = t.subrange(1, t.len() - 1);
    assert(t =~= seq!['"'] + (c + seq!['"']));
    lemma_occurs_split(s, v, seq!['"'], c + seq!['"']);
    assert(s[v] == t[0]);
    lemma_key_tail_through(s, v + 1, c);
}

/// How flat members, written at `p` and followed by `}`, are read inside a
/// nested object.
proof fn lemma_members_end_read(
    s: Seq<char>,
    p: int,
    ms: Seq<(Seq<char>, Seq<char>, Seq<char>, Seq<char>, Seq<char>, Seq<char>)>,
    d: nat,
)
    requires
        ms.len() >= 1,
        forall|i: int| 0 <= i < ms.len() ==> flat_member(#[trigger] ms[i]),
        occurs_at(s, p, members_text(ms) + seq!['}']),
    ensures
        skip_ws(s, p) == p + ms[0].0.len(),
        members_end(s, p + ms[0].0.len(), d) == Some(p + members_text(ms).len() + 1),
    decreases ms.len(),
{
    let m = ms[0];
    assert(flat_member(m));
    let mt = member_text(m);
    let t = p + mt.len();
    let v = p + m.0.len() + m.1.len() + 2 + m.2.len() + 1 + m.3.len();
    if ms.len() == 1 {
        assert(members_text(ms) == mt);
        lemma_occurs_split(s, p, mt, seq!['}']);
        assert(s[t] == seq!['}'][0]);
    } else {
        let rest = ms.drop_first();
        assert(members_text(ms) == mt + seq![','] + members_text(rest));
        assert(members_text(ms) + seq!['}'] =~= mt + (seq![','] + (members_text(rest) + seq![
            '}',
        ])));
        lemma_occurs_split(s, p, mt, seq![','] + (members_text(rest) + seq!['}']));
        lemma_occurs_split(s, t, seq![','], members_text(rest) + seq!['}']);
        assert(s[t] == seq![','][0]);
        assert forall|i: int| 0 <= i < rest.len() implies flat_member(#[trigger] rest[i]) by {
            assert(flat_member(ms[i + 1]));
        }
        lemma_members_end_read(s, t + 1, rest, d);
    }
    lemma_occurs_split(s, p, m.0 + quoted(m.1) + m.2 + seq![':'] + m.3 + m.4, m.5);
    lemma_occurs_split(s, p, m.0 + quoted(m.1) + m.2 + seq![':'] + m.3, m.4);
    lemma_plain_string_value(s, v, m.4, d);
    lemma_member_read_with(s, p, m, d);
}

/// A flat object, written at `v`, reads to its end when one more level of
/// nesting is allowed.
proof fn lemma_flat_object_value(s: Seq<char>, v: int, t: Seq<char>, d: nat)
    requires
        is_flat_object_text(t),
        occurs_at(s, v, t),
        d >= 1,
    ensures
        value_end(s, v, d) == Some(v + t.len()),
{
    let (inner, ms) = choose|
        inner: Seq<char>,
        ms: Seq<(Seq<char>, Seq<char>, Seq<char>, Seq<char>, Seq<char>, Seq<char>)>,
    |
        {
            &&& all_json_ws(inner)
            &&& forall|i: int| 0 <= i < ms.len() ==> flat_member(#[trigger] ms[i])
            &&& t == seq!['{'] + inner + members_text(ms) + seq!['}']
        };
    let a = seq!['{'] + inner;
    lemma_occurs_split(s, v, a + members_text(ms), seq!['}']);
    lemma_occurs_split(s, v, a, members_text(ms));
    lemma_occurs_split(s, v, seq!['{'], inner);
    assert(s[v] == seq!['{'][0]);
    let p = v + a.len();
    lemma_skip_ws_through(s, v + 1, inner);
    if ms.len() == 0 {
        assert(s[p] == seq!['}'][0]);
    } else {
        assert(occurs_at(s, p, members_text(ms) + seq!['}'])) by {
            assert forall|i: int| 0 <= i < (members_text(ms) + seq!['}']).len() implies s[p + i]
                == (members_text(ms) + seq!['}'])[i] by {
                if i == members_text(ms).len() {
                    assert(s[v + (a + members_text(ms)).len()] == seq!['}'][0]);
                }
            }
        }
        lemma_members_end_read(s, p, ms, (d - 1) as nat);
    }
}

/// How a member of the top-level object, written at `q` and followed by a
/// non-whitespace character, is read: its key and the end of its trailing
/// whitespace.
proof fn lemma_member_read(
    s: Seq<char>,
    q: int,
    m: (Seq<char>, Seq<char>, Seq<char>, Seq<char>, Seq<char>, Seq<char>),
    d: nat,
)
    requires
        member_well_formed(m),
        d >= 1,
        occurs_at(s, q, member_text(m)),
        q + member_text(m).len() < s.len(),
        !is_json_ws(s[q + member_text(m).len()]),
    ensures
        ({
            let j = q + m.0.len();
            let k = j + m.1.len() + 2;
            let c = k + m.2.len();
            let v = c + 1 + m.3.len();
            let e = v + m.4.len();
            &&& skip_ws(s, q) == j
            &&& s[j] == '"'
            &&& key_tail_end(s, j + 1) == Some(k)
            &&& s.subrange(j + 1, k - 1) == m.1
            &&& skip_ws(s, k) == c
            &&& s[c] == ':'
            &&& skip_ws(s, c + 1) == v
            &&& value_end(s, v, d) == Some(e)
            &&& skip_ws(s, e) == q + member_text(m).len()
        }),
{
    let v = q + m.0.len() + m.1.len() + 2 + m.2.len() + 1 + m.3.len();
    lemma_occurs_split(s, q, m.0 + quoted(m.1) + m.2 + seq![':'] + m.3 + m.4, m.5);
    lemma_occurs_split(s, q, m.0 + quoted(m.1) + m.2 + seq![':'] + m.3, m.4);
    if is_plain_string_text(m.4) {
        lemma_plain_string_value(s, v, m.4, d);
    } else {
        lemma_flat_object_value(s, v, m.4, d);
    }
    lemma_member_read_with(s, q, m, d);
}

/// How the members `ms`, written at `p` and followed by `}`, are read at the
/// top level.
proof fn lemma_members_read(
    s: Seq<char>,
    p: int,
    ms: Seq<(Seq<char>, Seq<char>, Seq<char>, Seq<char>, Seq<char>, Seq<char>)>,
    d: nat,
)
    requires
        ms.len() >= 1,
        d >= 1,
        forall|i: int| 0 <= i < ms.len() ==> member_well_formed(#[trigger] ms[i]),
        occurs_at(s, p, members_text(ms) + seq!['}']),
    ensures
        skip_ws(s, p) == p + ms[0].0.len(),
        top_members(s, p + ms[0].0.len(), d) == Some(
            (p + members_text(ms).len() + 1, member_keys(ms)),
        ),
    decreases ms.len(),
{
    let m = ms[0];
    assert(member_well_formed(m));
    let mt = member_text(m);
    let j = p + m.0.len();
    let t = p + mt.len();
    if ms.len() == 1 {
        assert(members_text(ms) == mt);
        lemma_occurs_split(s, p, mt, seq!['}']);
        assert(s[t] == seq!['}'][0]);
        lemma_member_read(s, p, m, d);
        assert(member_keys(ms) =~= seq![s.subrange(j + 1, j + m.1.len() + 1)]);
    } else {
        let rest = ms.drop_first();
        assert(members_text(ms) == mt + seq![','] + members_text(rest));
        assert(members_text(ms) + seq!['}'] =~= mt + (seq![','] + (members_text(rest) + seq![
            '}',
        ])));
        lemma_occurs_split(s, p, mt, seq![','] + (members_text(rest) + seq!['}']));
        lemma_occurs_split(s, t, seq![','], members_text(rest) + seq!['}']);
        assert(s[t] == seq![','][0]);
        lemma_member_read(s, p, m, d);
        assert forall|i: int| 0 <= i < rest.len() implies member_well_formed(#[trigger] rest[i]) by {
            assert(member_well_formed(ms[i + 1]));
        }
        lemma_members_read(s, t + 1, rest, d);
        assert(member_keys(ms) =~= seq![s.subrange(j + 1, j + m.1.len() + 1)] + member_keys(
            rest,
        ));
    }
}

/// The reading of an object text: for every object written out with
/// well-formed members, whitespace of any kind and amount between its parts,
/// and any number of members, the reader answers for it and gives its keys
/// in text order.
pub proof fn lemma_object_text_reading(
    lead: Seq<char>,
    inner: Seq<char>,
    ms: Seq<(Seq<char>, Seq<char>, Seq<char>, Seq<char>, Seq<char>, Seq<char>)>,
    trail: Seq<char>,
)
    requires
        all_json_ws(lead),
        all_json_ws(inner),
        all_json_ws(trail),
        forall|i: int| 0 <= i < ms.len() ==> member_well_formed(#[trigger] ms[i]),
    ensures
        json_reading(object_text(lead, inner, ms, trail)) == Some(Some(member_keys(ms))),
{
    let s = object_text(lead, inner, ms, trail);
    let a = lead + seq!['{'];
    let b = a + inner;
    let c = b + members_text(ms);
    let e = c + seq!['}'];
    assert(occurs_at(s, 0, s));
    lemma_occurs_split(s, 0, e, trail);
    lemma_occurs_split(s, 0, c, seq!['}']);
    lemma_occurs_split(s, 0, b, members_text(ms));
    lemma_occurs_split(s, 0, a, inner);
    lemma_occurs_split(s, 0, lead, seq!['{']);
    lemma_skip_ws_through(s, 0, lead);
    assert(s[lead.len() as int] == seq!['{'][0]);
    assert(skip_ws(s, 0) == lead.len());
    lemma_skip_ws_through(s, a.len() as int, inner);
    lemma_skip_ws_through(s, e.len() as int, trail);
    assert(skip_ws(s, s.len() as int) == s.len());
    if ms.len() == 0 {
        assert(s[b.len() as int] == seq!['}'][0]);
        assert(member_keys(ms) =~= Seq::<Seq<char>>::empty());
    } else {
        assert(b.len() + members_text(ms).len() + 1 == e.len());
        assert(occurs_at(s, b.len() as int, members_text(ms) + seq!['}'])) by {
            lemma_occurs_split(s, b.len() as int, members_text(ms), seq!['}']);
            assert forall|i: int| 0 <= i < (members_text(ms) + seq!['}']).len() implies s[b.len()
                + i] == (members_text(ms) + seq!['}'])[i] by {
                if i < members_text(ms).len() {
                } else {
                    assert(s[c.len() as int] == seq!['}'][0]);
                }
            }
        }
        lemma_members_read(s, b.len() as int, ms, (MAX_NESTING - 1) as nat);
    }
}

} // verus!
