//! A parser for the small JSON fragment the metadata filter language
//! uses: one-key objects whose value is a string, an integer, an array
//! of strings, or a nested one-key object naming a filter operation.
//! Spec functions define the grammar; the executable parser is proved
//! to return exactly what they say.  Escape sequences
//! and fractional numbers are outside the fragment and parse as
//! failures, which the filter language treats as "no match".

use vstd::prelude::*;

verus! {

/// A parsed scalar value: string, unsigned integer, negative integer,
/// or array of strings.
pub enum ScalarV {
    S(Seq<char>),
    U(u64),
    I(i64),
    A(Seq<Seq<char>>),
}

/// One parsed metadata document `{key: value}` or filter document
/// `{key: {op: value}}`.
pub struct DocV {
    pub key: Seq<char>,
    pub op: Option<Seq<char>>,
    pub value: ScalarV,
}

pub open spec fn is_ws_char(c: char) -> bool {
    c == ' ' || c == '\t' || c == '\n' || c == '\r'
}

pub open spec fn is_digit_char(c: char) -> bool {
    '0' <= c && c <= '9'
}

/// First position at or after `i` holding a non-blank character.
pub open spec fn skip_ws(s: Seq<char>, i: int) -> int
    decreases s.len() - i,
{
    if 0 <= i < s.len() && is_ws_char(s[i]) {
        skip_ws(s, i + 1)
    } else {
        i
    }
}

/// Position of the closing quote of a string body starting at `i`, if
/// the body holds neither a quote nor a backslash.
pub open spec fn scan_str(s: Seq<char>, i: int) -> Option<int>
    decreases s.len() - i,
{
    if 0 <= i < s.len() {
        if s[i] == '"' {
            Some(i)
        } else if s[i] == '\\' {
            None
        } else {
            scan_str(s, i + 1)
        }
    } else {
        None
    }
}

/// A quoted string at `i`: its characters and the position past it.
pub open spec fn p_string(s: Seq<char>, i: int) -> Option<(Seq<char>, int)> {
    if 0 <= i < s.len() && s[i] == '"' {
        match scan_str(s, i + 1) {
            Some(e) => Some((s.subrange(i + 1, e), e + 1)),
            None => None,
        }
    } else {
        None
    }
}

/// First position at or after `i` holding a non-digit.
pub open spec fn scan_digits(s: Seq<char>, i: int) -> int
    decreases s.len() - i,
{
    if 0 <= i < s.len() && is_digit_char(s[i]) {
        scan_digits(s, i + 1)
    } else {
        i
    }
}

/// The number written by the digits `s[i .. e]`.
pub open spec fn dig_val(s: Seq<char>, i: int, e: int) -> int
    decreases e - i,
{
    if i >= e {
        0
    } else {
        dig_val(s, i, e - 1) * 10 + (s[e - 1] as int - 48)
    }
}

/// An unsigned integer at `i`: its value and the position past it.
/// Overflowing u64, or trailing into a fraction or exponent, fails.
pub open spec fn p_uint(s: Seq<char>, i: int) -> Option<(u64, int)> {
    let e = scan_digits(s, i);
    if e == i {
        None
    } else if dig_val(s, i, e) > u64::MAX {
        None
    } else if e < s.len() && (s[e] == '.' || s[e] == 'e' || s[e] == 'E') {
        None
    } else {
        Some((dig_val(s, i, e) as u64, e))
    }
}

/// An integer at `i`, negative when introduced by a minus sign.
pub open spec fn p_number(s: Seq<char>, i: int) -> Option<(ScalarV, int)> {
    if 0 <= i < s.len() && s[i] == '-' {
        match p_uint(s, i + 1) {
            Some((u, e)) => if u <= 0x8000_0000_0000_0000u64 {
                Some((ScalarV::I((-(u as int)) as i64), e))
            } else {
                None
            },
            None => None,
        }
    } else {
        match p_uint(s, i) {
            Some((u, e)) => Some((ScalarV::U(u), e)),
            None => None,
        }
    }
}

/// The remainder of a string array after one element: `, "x"`* `]`.
/// The recursion is guarded on progress, which the grammar always makes.
pub open spec fn p_arr_rest(s: Seq<char>, i: int) -> Option<(Seq<Seq<char>>, int)>
    decreases s.len() - i,
{
    let j = skip_ws(s, i);
    if 0 <= j < s.len() && j >= i && s[j] == ']' {
        Some((Seq::empty(), j + 1))
    } else if 0 <= j < s.len() && j >= i && s[j] == ',' {
        let j2 = skip_ws(s, j + 1);
        match p_string(s, j2) {
            Some((v, j3)) => if j3 > i && j3 <= s.len() {
                match p_arr_rest(s, j3) {
                    Some((rest, j4)) => Some((seq![v] + rest, j4)),
                    None => None,
                }
            } else {
                None
            },
            None => None,
        }
    } else {
        None
    }
}

/// A string array at `i` (opening bracket included).
pub open spec fn p_array(s: Seq<char>, i: int) -> Option<(Seq<Seq<char>>, int)> {
    if 0 <= i < s.len() && s[i] == '[' {
        let j = skip_ws(s, i + 1);
        if j < s.len() && s[j] == ']' {
            Some((Seq::empty(), j + 1))
        } else {
            match p_string(s, j) {
                Some((v, j2)) => if j2 > i && j2 <= s.len() {
                    match p_arr_rest(s, j2) {
                        Some((rest, j3)) => Some((seq![v] + rest, j3)),
                        None => None,
                    }
                } else {
                    None
                },
                None => None,
            }
        }
    } else {
        None
    }
}

/// A scalar value at `i`: string, array, or integer.
pub open spec fn p_value(s: Seq<char>, i: int) -> Option<(ScalarV, int)> {
    if 0 <= i < s.len() && s[i] == '"' {
        match p_string(s, i) {
            Some((v, e)) => Some((ScalarV::S(v), e)),
            None => None,
        }
    } else if 0 <= i < s.len() && s[i] == '[' {
        match p_array(s, i) {
            Some((v, e)) => Some((ScalarV::A(v), e)),
            None => None,
        }
    } else {
        p_number(s, i)
    }
}

/// The trailing part of a document from the position after the top
/// value: `}` and blanks to the end of the input.
pub open spec fn p_doc_close(s: Seq<char>, i: int) -> bool {
    let j = skip_ws(s, i);
    &&& 0 <= j < s.len()
    &&& s[j] == '}'
    &&& skip_ws(s, j + 1) == s.len()
}

/// A whole metadata or filter document: a one-key object whose value is
/// either a scalar or a one-key object `{op: scalar}`.
pub open spec fn p_doc(s: Seq<char>) -> Option<DocV> {
    let i0 = skip_ws(s, 0);
    if !(0 <= i0 < s.len() && s[i0] == '{') {
        None
    } else {
        match p_string(s, skip_ws(s, i0 + 1)) {
            None => None,
            Some((key, i2)) => {
                let i3 = skip_ws(s, i2);
                if !(i3 < s.len() && s[i3] == ':') {
                    None
                } else {
                    let i4 = skip_ws(s, i3 + 1);
                    if 0 <= i4 < s.len() && s[i4] == '{' {
                        match p_string(s, skip_ws(s, i4 + 1)) {
                            None => None,
                            Some((op, i6)) => {
                                let i7 = skip_ws(s, i6);
                                if !(i7 < s.len() && s[i7] == ':') {
                                    None
                                } else {
                                    match p_value(s, skip_ws(s, i7 + 1)) {
                                        None => None,
                                        Some((v, i9)) => {
                                            let i10 = skip_ws(s, i9);
                                            if i10 < s.len() && s[i10] == '}' && p_doc_close(
                                                s,
                                                i10 + 1,
                                            ) {
                                                Some(DocV { key, op: Some(op), value: v })
                                            } else {
                                                None
                                            }
                                        },
                                    }
                                }
                            },
                        }
                    } else {
                        match p_value(s, i4) {
                            None => None,
                            Some((v, i9)) => {
                                if p_doc_close(s, i9) {
                                    Some(DocV { key, op: None, value: v })
                                } else {
                                    None
                                }
                            },
                        }
                    }
                }
            },
        }
    }
}

} // verus!

verus! {

// ---------------------------------------------------------------------------
// Bounds of the scanning functions.
// ---------------------------------------------------------------------------

pub proof fn lemma_skip_ws_bounds(s: Seq<char>, i: int)
    requires
        0 <= i <= s.len(),
    ensures
        i <= skip_ws(s, i) <= s.len(),
    decreases s.len() - i,
{
    if i < s.len() && is_ws_char(s[i]) {
        lemma_skip_ws_bounds(s, i + 1);
    }
}

pub proof fn lemma_scan_str_bounds(s: Seq<char>, i: int)
    requires
        0 <= i,
        scan_str(s, i) is Some,
    ensures
        i <= scan_str(s, i)->0 < s.len(),
        s[scan_str(s, i)->0] == '"',
    decreases s.len() - i,
{
    if i < s.len() && s[i] != '"' && s[i] != '\\' {
        lemma_scan_str_bounds(s, i + 1);
    }
}

pub proof fn lemma_scan_digits_bounds(s: Seq<char>, i: int)
    requires
        0 <= i <= s.len(),
    ensures
        i <= scan_digits(s, i) <= s.len(),
        forall|j: int| i <= j < scan_digits(s, i) ==> is_digit_char(s[j]),
    decreases s.len() - i,
{
    if i < s.len() && is_digit_char(s[i]) {
        lemma_scan_digits_bounds(s, i + 1);
    }
}

/// The value of a digit run only grows as it extends.
pub proof fn lemma_dig_val_mono(s: Seq<char>, i: int, e1: int, e2: int)
    requires
        i <= e1 <= e2,
        forall|j: int| i <= j < e2 ==> is_digit_char(s[j]),
    ensures
        0 <= dig_val(s, i, e1) <= dig_val(s, i, e2),
    decreases e2 - i, e2 - e1,
{
    if e1 == e2 {
        if e1 > i {
            lemma_dig_val_mono(s, i, e1 - 1, e1 - 1);
        }
    } else {
        lemma_dig_val_mono(s, i, e1, e2 - 1);
        lemma_dig_val_mono(s, i, e2 - 1, e2 - 1);
    }
}

/// The overflow test of the accumulating loop is exact.
pub proof fn lemma_mul10_bound(acc: u64, d: u64)
    requires
        d < 10,
    ensures
        (acc > (u64::MAX - d) / 10) <==> (acc * 10 + d > u64::MAX),
{
    vstd::arithmetic::div_mod::lemma_fundamental_div_mod((u64::MAX - d) as int, 10);
}

// ---------------------------------------------------------------------------
// The executable parser.
// ---------------------------------------------------------------------------

/// A parsed scalar, carried by the executable parser.
pub enum Scalar {
    S(String),
    U(u64),
    I(i64),
    A(Vec<String>),
}

/// The mathematical content of a parsed scalar.
pub open spec fn scalar_view(v: Scalar) -> ScalarV {
    match v {
        Scalar::S(s) => ScalarV::S(s@),
        Scalar::U(u) => ScalarV::U(u),
        Scalar::I(i) => ScalarV::I(i),
        Scalar::A(a) => ScalarV::A(a.deep_view()),
    }
}

/// A parsed document, carried by the executable parser.
pub struct ParsedDoc {
    pub key: String,
    pub op: Option<String>,
    pub value: Scalar,
}

fn exec_skip_ws(s: &str, len: usize, i: usize) -> (r: usize)
    requires
        len == s@.len(),
        i <= len,
    ensures
        r == skip_ws(s@, i as int),
        i <= r <= len,
{
    let mut cur = i;
    while cur < len
        invariant
            len == s@.len(),
            i <= cur <= len,
            skip_ws(s@, i as int) == skip_ws(s@, cur as int),
        decreases len - cur,
    {
        let c = s.get_char(cur);
        if c == ' ' || c == '\t' || c == '\n' || c == '\r' {
            cur += 1;
        } else {
            proof {
                lemma_skip_ws_bounds(s@, cur as int);
            }
            return cur;
        }
    }
    cur
}

fn exec_scan_str(s: &str, len: usize, i: usize) -> (r: Option<usize>)
    requires
        len == s@.len(),
        i <= len,
    ensures
        match scan_str(s@, i as int) {
            Some(e) => r matches Some(x) && x == e,
            None => r is None,
        },
{
    let mut cur = i;
    while cur < len
        invariant
            len == s@.len(),
            i <= cur <= len,
            scan_str(s@, i as int) == scan_str(s@, cur as int),
        decreases len - cur,
    {
        let c = s.get_char(cur);
        if c == '"' {
            return Some(cur);
        } else if c == '\\' {
            return None;
        } else {
            cur += 1;
        }
    }
    None
}

fn parse_string(s: &str, len: usize, i: usize) -> (r: Option<(String, usize)>)
    requires
        len == s@.len(),
        i <= len,
    ensures
        match p_string(s@, i as int) {
            Some(vp) => r matches Some(x) && x.0@ == vp.0 && x.1 == vp.1,
            None => r is None,
        },
{
    if i < len && s.get_char(i) == '"' {
        match exec_scan_str(s, len, i + 1) {
            Some(e) => {
                proof {
                    lemma_scan_str_bounds(s@, i as int + 1);
                }
                let body = s.substring_char(i + 1, e).to_owned();
                Some((body, e + 1))
            },
            None => None,
        }
    } else {
        None
    }
}

fn exec_scan_digits(s: &str, len: usize, i: usize) -> (r: usize)
    requires
        len == s@.len(),
        i <= len,
    ensures
        r == scan_digits(s@, i as int),
        i <= r <= len,
{
    let mut cur = i;
    while cur < len
        invariant
            len == s@.len(),
            i <= cur <= len,
            scan_digits(s@, i as int) == scan_digits(s@, cur as int),
        decreases len - cur,
    {
        let c = s.get_char(cur);
        if '0' <= c && c <= '9' {
            cur += 1;
        } else {
            return cur;
        }
    }
    cur
}

fn parse_u64(s: &str, len: usize, i: usize) -> (r: Option<(u64, usize)>)
    requires
        len == s@.len(),
        i <= len,
    ensures
        match p_uint(s@, i as int) {
            Some(vp) => r matches Some(x) && x.0 == vp.0 && x.1 == vp.1,
            None => r is None,
        },
{
    proof {
        lemma_scan_digits_bounds(s@, i as int);
    }
    let e = exec_scan_digits(s, len, i);
    if e == i {
        return None;
    }
    let mut cur = i;
    let mut acc: u64 = 0;
    while cur < e
        invariant
            len == s@.len(),
            i <= cur <= e <= len,
            e == scan_digits(s@, i as int),
            forall|j: int| i <= j < e ==> is_digit_char(s@[j]),
            acc == dig_val(s@, i as int, cur as int),
        decreases e - cur,
    {
        let c = s.get_char(cur);
        let d: u64 = (c as u32 - 48) as u64;
        proof {
            lemma_mul10_bound(acc, d);
        }
        if acc > (u64::MAX - d) / 10 {
            proof {
                lemma_dig_val_mono(s@, i as int, cur as int + 1, e as int);
            }
            return None;
        }
        acc = acc * 10 + d;
        cur += 1;
    }
    if e < len {
        let c = s.get_char(e);
        if c == '.' || c == 'e' || c == 'E' {
            return None;
        }
    }
    Some((acc, e))
}

fn parse_number(s: &str, len: usize, i: usize) -> (r: Option<(Scalar, usize)>)
    requires
        len == s@.len(),
        i <= len,
    ensures
        match p_number(s@, i as int) {
            Some(vp) => r matches Some(x) && scalar_view(x.0) == vp.0 && x.1 == vp.1,
            None => r is None,
        },
{
    if i < len && s.get_char(i) == '-' {
        match parse_u64(s, len, i + 1) {
            Some((u, e)) => {
                if u <= 0x8000_0000_0000_0000u64 {
                    let v: i64 = if u == 0x8000_0000_0000_0000u64 {
                        i64::MIN
                    } else {
                        -(u as i64)
                    };
                    Some((Scalar::I(v), e))
                } else {
                    None
                }
            },
            None => None,
        }
    } else {
        match parse_u64(s, len, i) {
            Some((u, e)) => Some((Scalar::U(u), e)),
            None => None,
        }
    }
}

fn parse_arr_rest(s: &str, len: usize, i: usize) -> (r: Option<(Vec<String>, usize)>)
    requires
        len == s@.len(),
        i <= len,
    ensures
        match p_arr_rest(s@, i as int) {
            Some(vp) => r matches Some(x) && x.0.deep_view() == vp.0 && x.1 == vp.1,
            None => r is None,
        },
    decreases len - i,
{
    let j = exec_skip_ws(s, len, i);
    if j < len && s.get_char(j) == ']' {
        Some((Vec::new(), j + 1))
    } else if j < len && s.get_char(j) == ',' {
        let j2 = exec_skip_ws(s, len, j + 1);
        match parse_string(s, len, j2) {
            Some((v, j3)) => {
                proof {
                    lemma_scan_str_bounds(s@, j2 as int + 1);
                }
                if j3 > i {
                    match parse_arr_rest(s, len, j3) {
                        Some((rest, j4)) => {
                            let ghost vv = v@;
                            let mut out = rest;
                            out.insert(0, v);
                            proof {
                                assert(out.deep_view() =~= seq![vv]
                                    + (p_arr_rest(s@, j3 as int)->0).0);
                            }
                            Some((out, j4))
                        },
                        None => None,
                    }
                } else {
                    None
                }
            },
            None => None,
        }
    } else {
        None
    }
}

fn parse_array(s: &str, len: usize, i: usize) -> (r: Option<(Vec<String>, usize)>)
    requires
        len == s@.len(),
        i <= len,
    ensures
        match p_array(s@, i as int) {
            Some(vp) => r matches Some(x) && x.0.deep_view() == vp.0 && x.1 == vp.1,
            None => r is None,
        },
{
    if i < len && s.get_char(i) == '[' {
        let j = exec_skip_ws(s, len, i + 1);
        if j < len && s.get_char(j) == ']' {
            let out: Vec<String> = Vec::new();
            proof {
                assert(out.deep_view() =~= Seq::<Seq<char>>::empty());
            }
            Some((out, j + 1))
        } else {
            match parse_string(s, len, j) {
                Some((v, j2)) => {
                    proof {
                        lemma_scan_str_bounds(s@, j as int + 1);
                    }
                    if j2 > i {
                        match parse_arr_rest(s, len, j2) {
                            Some((rest, j3)) => {
                                let ghost vv = v@;
                                let mut out = rest;
                                out.insert(0, v);
                                proof {
                                    assert(out.deep_view() =~= seq![vv]
                                        + (p_arr_rest(s@, j2 as int)->0).0);
                                }
                                Some((out, j3))
                            },
                            None => None,
                        }
                    } else {
                        None
                    }
                },
                None => None,
            }
        }
    } else {
        None
    }
}

fn parse_value(s: &str, len: usize, i: usize) -> (r: Option<(Scalar, usize)>)
    requires
        len == s@.len(),
        i <= len,
    ensures
        match p_value(s@, i as int) {
            Some(vp) => r matches Some(x) && scalar_view(x.0) == vp.0 && x.1 == vp.1,
            None => r is None,
        },
{
    if i < len && s.get_char(i) == '"' {
        match parse_string(s, len, i) {
            Some((v, e)) => Some((Scalar::S(v), e)),
            None => None,
        }
    } else if i < len && s.get_char(i) == '[' {
        match parse_array(s, len, i) {
            Some((v, e)) => Some((Scalar::A(v), e)),
            None => None,
        }
    } else {
        parse_number(s, len, i)
    }
}

fn parse_doc_close(s: &str, len: usize, i: usize) -> (r: bool)
    requires
        len == s@.len(),
        i <= len,
    ensures
        r == p_doc_close(s@, i as int),
{
    let j = exec_skip_ws(s, len, i);
    if j < len && s.get_char(j) == '}' {
        let j2 = exec_skip_ws(s, len, j + 1);
        j2 == len
    } else {
        false
    }
}

/// Parse one whole metadata or filter document.
pub fn parse_doc(s: &str) -> (r: Option<ParsedDoc>)
    ensures
        match p_doc(s@) {
            Some(d) => {
                &&& r matches Some(pd)
                &&& pd.key@ == d.key
                &&& (pd.op is Some <==> d.op is Some)
                &&& (pd.op matches Some(o) ==> d.op matches Some(ov) && o@ == ov)
                &&& scalar_view(pd.value) == d.value
            },
            None => r is None,
        },
{
    let len = s.unicode_len();
    let i0 = exec_skip_ws(s, len, 0);
    if !(i0 < len && s.get_char(i0) == '{') {
        return None;
    }
    let i1 = exec_skip_ws(s, len, i0 + 1);
    let (key, i2) = match parse_string(s, len, i1) {
        Some(x) => x,
        None => {
            return None;
        },
    };
    proof {
        lemma_scan_str_bounds(s@, i1 as int + 1);
    }
    let i3 = exec_skip_ws(s, len, i2);
    if !(i3 < len && s.get_char(i3) == ':') {
        return None;
    }
    let i4 = exec_skip_ws(s, len, i3 + 1);
    if i4 < len && s.get_char(i4) == '{' {
        let i5 = exec_skip_ws(s, len, i4 + 1);
        let (op, i6) = match parse_string(s, len, i5) {
            Some(x) => x,
            None => {
                return None;
            },
        };
        proof {
            lemma_scan_str_bounds(s@, i5 as int + 1);
        }
        let i7 = exec_skip_ws(s, len, i6);
        if !(i7 < len && s.get_char(i7) == ':') {
            return None;
        }
        let i8 = exec_skip_ws(s, len, i7 + 1);
        let (v, i9) = match parse_value(s, len, i8) {
            Some(x) => x,
            None => {
                return None;
            },
        };
        proof {
            lemma_p_value_bounds(s@, i8 as int);
        }
        let i10 = exec_skip_ws(s, len, i9);
        if i10 < len && s.get_char(i10) == '}' && parse_doc_close(s, len, i10 + 1) {
            Some(ParsedDoc { key, op: Some(op), value: v })
        } else {
            None
        }
    } else {
        let (v, i9) = match parse_value(s, len, i4) {
            Some(x) => x,
            None => {
                return None;
            },
        };
        proof {
            lemma_p_value_bounds(s@, i4 as int);
        }
        if parse_doc_close(s, len, i9) {
            Some(ParsedDoc { key, op: None, value: v })
        } else {
            None
        }
    }
}

/// Every parse result ends inside the input.
pub proof fn lemma_p_arr_rest_bounds(s: Seq<char>, i: int)
    requires
        0 <= i <= s.len(),
        p_arr_rest(s, i) is Some,
    ensures
        i <= (p_arr_rest(s, i)->0).1 <= s.len(),
    decreases s.len() - i,
{
    let j = skip_ws(s, i);
    lemma_skip_ws_bounds(s, i);
    if j < s.len() && s[j] == ']' {
    } else {
        let j2 = skip_ws(s, j + 1);
        lemma_skip_ws_bounds(s, j + 1);
        lemma_scan_str_bounds(s, j2 + 1);
        let j3 = (p_string(s, j2)->0).1;
        lemma_p_arr_rest_bounds(s, j3);
    }
}

pub proof fn lemma_p_value_bounds(s: Seq<char>, i: int)
    requires
        0 <= i <= s.len(),
        p_value(s, i) is Some,
    ensures
        i <= (p_value(s, i)->0).1 <= s.len(),
{
    if i < s.len() && s[i] == '"' {
        lemma_scan_str_bounds(s, i + 1);
    } else if i < s.len() && s[i] == '[' {
        let j = skip_ws(s, i + 1);
        lemma_skip_ws_bounds(s, i + 1);
        if j < s.len() && s[j] == ']' {
        } else {
            lemma_scan_str_bounds(s, j + 1);
            let j2 = (p_string(s, j)->0).1;
            lemma_p_arr_rest_bounds(s, j2);
        }
    } else {
        if i < s.len() && s[i] == '-' {
            lemma_scan_digits_bounds(s, i + 1);
        } else {
            lemma_scan_digits_bounds(s, i);
        }
    }
}

} // verus!
