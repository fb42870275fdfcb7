//! The Overpass JSON element grammar: a recursive-descent parser for the
//! objects of a query response, from characters to the object model.
//! The spec functions define the grammar; each executable parser returns
//! exactly what its spec function denotes.
//!
//! The accepted subset covers what Overpass emits: objects, arrays,
//! strings with the named escapes (`\" \\ \/ \b \f \n \r \t`; `\u` code
//! point escapes are not accepted and fail the element), decimal numbers
//! without exponents, `true`, `false` and `null`.

use vstd::prelude::*;
use crate::numbers::{is_digit, digit_val, parse_dec};
use crate::object::{MemberV, OSMObjectType, OSMObjectV, SpecificsV, Tag, OSMObject, OSMObjectSpecifics, OSMRelationMember};
use crate::strutil::{chars_to_string, str_eq};

verus! {

pub open spec fn is_ws(c: char) -> bool {
    c == ' ' || c == '\t' || c == '\n' || c == '\r'
}

/// The first position at or after `i` that holds no whitespace.
pub open spec fn skip_ws(s: Seq<char>, i: int) -> int
    decreases s.len() - i,
{
    if 0 <= i < s.len() && is_ws(s[i]) {
        skip_ws(s, i + 1)
    } else {
        i
    }
}

proof fn lemma_skip_ws_bounds(s: Seq<char>, i: int)
    requires
        0 <= i <= s.len(),
    ensures
        i <= skip_ws(s, i) <= s.len(),
    decreases s.len() - i,
{
    if i < s.len() && is_ws(s[i]) {
        lemma_skip_ws_bounds(s, i + 1);
    }
}

fn e_is_ws(c: char) -> (b: bool)
    ensures
        b == is_ws(c),
{
    c == ' ' || c == '\t' || c == '\n' || c == '\r'
}

fn e_skip_ws(s: &Vec<char>, i: usize) -> (r: usize)
    requires
        i <= s@.len(),
    ensures
        r as int == skip_ws(s@, i as int),
        i <= r <= s@.len(),
{
    let mut j = i;
    while j < s.len() && e_is_ws(s[j])
        invariant
            i <= j <= s@.len(),
            skip_ws(s@, i as int) == skip_ws(s@, j as int),
        decreases s@.len() - j,
    {
        j += 1;
    }
    j
}

/// The characters of a JSON string body from `i` (after the opening
/// quote), with `acc` already read.
pub open spec fn scan_jstr(s: Seq<char>, i: int, acc: Seq<char>) -> Option<(Seq<char>, int)>
    decreases s.len() - i,
{
    if i < 0 || i >= s.len() {
        None
    } else if s[i] == '"' {
        Some((acc, i + 1))
    } else if s[i] == '\\' {
        if i + 1 < s.len() {
            let c = s[i + 1];
            if c == '"' || c == '\\' || c == '/' {
                scan_jstr(s, i + 2, acc + seq![c])
            } else if c == 'n' {
                scan_jstr(s, i + 2, acc + seq!['\n'])
            } else if c == 't' {
                scan_jstr(s, i + 2, acc + seq!['\t'])
            } else if c == 'r' {
                scan_jstr(s, i + 2, acc + seq!['\r'])
            } else if c == 'b' {
                scan_jstr(s, i + 2, acc + seq!['\u{8}'])
            } else if c == 'f' {
                scan_jstr(s, i + 2, acc + seq!['\u{c}'])
            } else {
                None
            }
        } else {
            None
        }
    } else {
        scan_jstr(s, i + 1, acc + seq![s[i]])
    }
}

/// A JSON string starting at `i` with its opening quote.
pub open spec fn parse_jstr(s: Seq<char>, i: int) -> Option<(Seq<char>, int)> {
    if 0 <= i < s.len() && s[i] == '"' {
        scan_jstr(s, i + 1, Seq::empty())
    } else {
        None
    }
}

proof fn lemma_scan_jstr_bounds(s: Seq<char>, i: int, acc: Seq<char>)
    requires
        0 <= i <= s.len(),
        scan_jstr(s, i, acc) is Some,
    ensures
        i < (scan_jstr(s, i, acc)->0).1 <= s.len(),
    decreases s.len() - i,
{
    if i < s.len() && s[i] == '"' {
    } else if i < s.len() && s[i] == '\\' && i + 1 < s.len() {
        let c = s[i + 1];
        if c == '"' || c == '\\' || c == '/' {
            lemma_scan_jstr_bounds(s, i + 2, acc + seq![c]);
        } else if c == 'n' {
            lemma_scan_jstr_bounds(s, i + 2, acc + seq!['\n']);
        } else if c == 't' {
            lemma_scan_jstr_bounds(s, i + 2, acc + seq!['\t']);
        } else if c == 'r' {
            lemma_scan_jstr_bounds(s, i + 2, acc + seq!['\r']);
        } else if c == 'b' {
            lemma_scan_jstr_bounds(s, i + 2, acc + seq!['\u{8}']);
        } else if c == 'f' {
            lemma_scan_jstr_bounds(s, i + 2, acc + seq!['\u{c}']);
        }
    } else if i < s.len() {
        lemma_scan_jstr_bounds(s, i + 1, acc + seq![s[i]]);
    }
}

pub proof fn lemma_parse_jstr_bounds(s: Seq<char>, i: int)
    requires
        0 <= i <= s.len(),
        parse_jstr(s, i) is Some,
    ensures
        i < (parse_jstr(s, i)->0).1 <= s.len(),
{
    lemma_scan_jstr_bounds(s, i + 1, Seq::empty());
}

fn e_parse_jstr(s: &Vec<char>, i: usize) -> (r: Option<(Vec<char>, usize)>)
    requires
        i <= s@.len(),
    ensures
        match r {
            Some(p) => parse_jstr(s@, i as int) == Some((p.0@, p.1 as int)) && i < p.1 <= s@.len(),
            None => parse_jstr(s@, i as int) is None,
        },
{
    if !(i < s.len() && s[i] == '"') {
        return None;
    }
    let mut acc: Vec<char> = Vec::new();
    let mut j = i + 1;
    loop
        invariant_except_break
            i + 1 <= j <= s@.len(),
            scan_jstr(s@, i + 1, Seq::empty()) == scan_jstr(s@, j as int, acc@),
        ensures
            i + 1 <= j <= s@.len(),
            match scan_jstr(s@, i + 1, Seq::<char>::empty()) {
                Some(p) => acc@ == p.0 && j == p.1 - 1 && 0 <= p.1 <= s@.len() && j < s@.len()
                    && s@[j as int] == '"',
                None => true,
            } && (scan_jstr(s@, i + 1, Seq::<char>::empty()) is None ==> (j >= s@.len()
                || s@[j as int] != '"')),
        decreases s@.len() - j,
    {
        if j >= s.len() {
            proof {
                assert(scan_jstr(s@, j as int, acc@) is None);
            }
            break ;
        }
        let c = s[j];
        if c == '"' {
            proof {
                assert(scan_jstr(s@, j as int, acc@) == Some((acc@, j + 1 as int)));
            }
            break ;
        } else if c == '\\' {
            if j + 1 >= s.len() {
                proof {
                    assert(scan_jstr(s@, j as int, acc@) is None);
                }
                break ;
            }
            let e = s[j + 1];
            let ghost old_acc = acc@;
            if e == '"' || e == '\\' || e == '/' {
                acc.push(e);
                proof {
                    assert(acc@ =~= old_acc + seq![e]);
                }
            } else if e == 'n' {
                acc.push('\n');
                proof {
                    assert(acc@ =~= old_acc + seq!['\n']);
                }
            } else if e == 't' {
                acc.push('\t');
                proof {
                    assert(acc@ =~= old_acc + seq!['\t']);
                }
            } else if e == 'r' {
                acc.push('\r');
                proof {
                    assert(acc@ =~= old_acc + seq!['\r']);
                }
            } else if e == 'b' {
                acc.push('\u{8}');
                proof {
                    assert(acc@ =~= old_acc + seq!['\u{8}']);
                }
            } else if e == 'f' {
                acc.push('\u{c}');
                proof {
                    assert(acc@ =~= old_acc + seq!['\u{c}']);
                }
            } else {
                proof {
                    assert(scan_jstr(s@, j as int, acc@) is None);
                }
                break ;
            }
            j += 2;
        } else {
            let ghost old_acc = acc@;
            acc.push(c);
            proof {
                assert(acc@ =~= old_acc + seq![c]);
            }
            j += 1;
        }
    }
    if j < s.len() && s[j] == '"' {
        Some((acc, j + 1))
    } else {
        None
    }
}


/// A parsed JSON number: sign, integer part, and the fraction scaled to
/// seven decimal places (the native resolution of OSM coordinates).
pub struct JNumV {
    pub neg: bool,
    pub ip: nat,
    pub f7: nat,
}

/// The end of the run of digits starting at `i`.
pub open spec fn digits_end(s: Seq<char>, i: int) -> int
    decreases s.len() - i,
{
    if 0 <= i < s.len() && is_digit(s[i]) {
        digits_end(s, i + 1)
    } else {
        i
    }
}

/// The value of a digit run read into `k` fractional slots; digits past
/// the `k`-th are ignored.
pub open spec fn frac_val_at(s: Seq<char>, i: int, end: int, k: nat) -> nat
    decreases k,
{
    if k == 0 || !(0 <= i < end && i < s.len()) {
        0
    } else {
        digit_val(s[i]) * pow10((k - 1) as nat) + frac_val_at(s, i + 1, end, (k - 1) as nat)
    }
}

pub open spec fn pow10(k: nat) -> nat {
    crate::numbers::pow10(k)
}

proof fn lemma_frac_val_bound(s: Seq<char>, i: int, end: int, k: nat)
    requires
        forall|j: int| i <= j < end && 0 <= j < s.len() ==> is_digit(#[trigger] s[j]),
    ensures
        frac_val_at(s, i, end, k) < pow10(k),
    decreases k,
{
    if k == 0 || !(0 <= i < end && i < s.len()) {
        crate::numbers::lemma_pow10_positive(k);
    } else {
        lemma_frac_val_bound(s, i + 1, end, (k - 1) as nat);
        let d = digit_val(s[i]);
        assert(d <= 9);
        assert(d * pow10((k - 1) as nat) + frac_val_at(s, i + 1, end, (k - 1) as nat) < (d + 1)
            * pow10((k - 1) as nat)) by (nonlinear_arith)
            requires
                frac_val_at(s, i + 1, end, (k - 1) as nat) < pow10((k - 1) as nat),
        ;
        assert((d + 1) * pow10((k - 1) as nat) <= 10 * pow10((k - 1) as nat)) by (nonlinear_arith)
            requires
                d <= 9 && pow10((k - 1) as nat) >= 0,
        ;
        assert(pow10(k) == 10 * pow10((k - 1) as nat));
    }
}

/// Parse a JSON number without an exponent.
pub open spec fn parse_jnum(s: Seq<char>, i: int) -> Option<(JNumV, int)> {
    let neg = expect_c(s, i, '-');
    let i0 = if neg {
        i + 1
    } else {
        i
    };
    match parse_dec(s, i0) {
        None => None,
        Some(ipj) => if ipj.0 > u64::MAX {
            None
        } else if expect_c(s, ipj.1, '.') {
            if ipj.1 + 1 < s.len() && is_digit(s[ipj.1 + 1]) {
                let e = digits_end(s, ipj.1 + 1);
                Some((JNumV { neg, ip: ipj.0, f7: frac_val_at(s, ipj.1 + 1, e, 7) }, e))
            } else {
                None
            }
        } else {
            Some((JNumV { neg, ip: ipj.0, f7: 0 }, ipj.1))
        },
    }
}

pub open spec fn expect_c(s: Seq<char>, i: int, c: char) -> bool {
    0 <= i < s.len() && s[i] == c
}

/// The fixed-point coordinate a JSON number denotes, when it fits.
pub open spec fn jnum_coord7(n: JNumV) -> Option<int> {
    let mag = n.ip * 10000000 + n.f7;
    if mag > i64::MAX {
        None
    } else if n.neg {
        Some(-(mag as int))
    } else {
        Some(mag as int)
    }
}

/// The unsigned integer a JSON number denotes, when it is one.
pub open spec fn jnum_u64(n: JNumV) -> Option<nat> {
    if !n.neg && n.f7 == 0 {
        Some(n.ip)
    } else {
        None
    }
}

fn e_digits_end(s: &Vec<char>, i: usize) -> (r: usize)
    requires
        i <= s@.len(),
    ensures
        r as int == digits_end(s@, i as int),
        i <= r <= s@.len(),
        forall|j: int| i <= j < r ==> is_digit(#[trigger] s@[j]),
{
    let mut j = i;
    while j < s.len() && crate::codec::is_digit_ch(s[j])
        invariant
            i <= j <= s@.len(),
            digits_end(s@, i as int) == digits_end(s@, j as int),
            forall|k: int| i <= k < j ==> is_digit(#[trigger] s@[k]),
        decreases s@.len() - j,
    {
        j += 1;
    }
    j
}

fn e_frac_val(s: &Vec<char>, i: usize, end: usize, k: u32) -> (r: u32)
    requires
        i <= s@.len(),
        end <= s@.len(),
        k <= 7,
        forall|j: int| i <= j < end ==> is_digit(#[trigger] s@[j]),
    ensures
        r as nat == frac_val_at(s@, i as int, end as int, k as nat),
        r < 10000000,
    decreases k,
{
    proof {
        lemma_frac_val_bound(s@, i as int, end as int, k as nat);
        crate::numbers::lemma_pow10_le(k as nat, 7);
        crate::numbers::lemma_pow10_vals();
    }
    if k == 0 || i >= end {
        0
    } else {
        let d: u32 = match crate::codec::digit_of(s[i]) {
            Some(d) => d as u32,
            None => 0,
        };
        let p: u32 = pow10_u32(k - 1);
        let rest = e_frac_val(s, i + 1, end, k - 1);
        proof {
            lemma_frac_val_bound(s@, i as int + 1, end as int, (k - 1) as nat);
            assert((d as nat) * pow10((k - 1) as nat) + (rest as nat) < pow10(k as nat))
                by (nonlinear_arith)
                requires
                    (d as nat) <= 9 && (rest as nat) < pow10((k - 1) as nat) && pow10(k as nat)
                        == 10 * pow10((k - 1) as nat),
            ;
            crate::numbers::lemma_pow10_le(k as nat, 7);
            crate::numbers::lemma_pow10_vals();
        }
        d * p + rest
    }
}

fn pow10_u32(k: u32) -> (r: u32)
    requires
        k <= 7,
    ensures
        r as nat == pow10(k as nat),
    decreases k,
{
    if k == 0 {
        1
    } else {
        let p = pow10_u32(k - 1);
        proof {
            crate::numbers::lemma_pow10_le((k - 1) as nat, 6);
            crate::numbers::lemma_pow10_vals();
        }
        10 * p
    }
}

/// Parse a JSON number.
fn e_parse_jnum(s: &Vec<char>, i: usize) -> (r: Option<((bool, u64, u32), usize)>)
    requires
        i <= s@.len(),
    ensures
        match r {
            Some(p) => parse_jnum(s@, i as int) == Some(
                (JNumV { neg: p.0.0, ip: p.0.1 as nat, f7: p.0.2 as nat }, p.1 as int),
            ) && i < p.1 <= s@.len() && p.0.2 < 10000000,
            None => parse_jnum(s@, i as int) is None,
        },
{
    let neg = i < s.len() && s[i] == '-';
    let i0 = if neg {
        i + 1
    } else {
        i
    };
    let (ip, j) = match crate::codec::e_parse_u64(s, i0) {
        Some(p) => p,
        None => {
            return None;
        },
    };
    if j < s.len() && s[j] == '.' {
        if !(j + 1 < s.len() && crate::codec::is_digit_ch(s[j + 1])) {
            return None;
        }
        let e = e_digits_end(s, j + 1);
        let f7 = e_frac_val(s, j + 1, e, 7);
        proof {
            crate::numbers::lemma_parse_dec_bounds(s@, i0 as int);
        }
        Some(((neg, ip, f7), e))
    } else {
        Some(((neg, ip, 0), j))
    }
}

/// Skip any JSON value; `Some(j)` is the position after it.
pub open spec fn skip_value(s: Seq<char>, i: int) -> Option<int>
    decreases s.len() - i, 0nat,
{
    if !(0 <= i <= s.len()) {
        None
    } else {
        let i0 = skip_ws(s, i);
        if !(i <= i0 < s.len()) {
            None
        } else {
            let c = s[i0];
            if c == '"' {
                match parse_jstr(s, i0) {
                    Some(p) => Some(p.1),
                    None => None,
                }
            } else if c == '{' {
                skip_obj_rest(s, i0 + 1, true)
            } else if c == '[' {
                skip_arr_rest(s, i0 + 1, true)
            } else if c == 't' {
                if expect_c(s, i0 + 1, 'r') && expect_c(s, i0 + 2, 'u') && expect_c(s, i0 + 3, 'e') {
                    Some(i0 + 4)
                } else {
                    None
                }
            } else if c == 'f' {
                if expect_c(s, i0 + 1, 'a') && expect_c(s, i0 + 2, 'l') && expect_c(s, i0 + 3, 's')
                    && expect_c(s, i0 + 4, 'e') {
                    Some(i0 + 5)
                } else {
                    None
                }
            } else if c == 'n' {
                if expect_c(s, i0 + 1, 'u') && expect_c(s, i0 + 2, 'l') && expect_c(s, i0 + 3, 'l') {
                    Some(i0 + 4)
                } else {
                    None
                }
            } else if c == '-' || is_digit(c) {
                match parse_jnum(s, i0) {
                    Some(p) => Some(p.1),
                    None => None,
                }
            } else {
                None
            }
        }
    }
}

/// Skip the remainder of an object after its opening brace.
pub open spec fn skip_obj_rest(s: Seq<char>, i: int, first: bool) -> Option<int>
    decreases s.len() - i, 1nat,
{
    if !(0 < i <= s.len()) {
        None
    } else {
        let i0 = skip_ws(s, i);
        if !(i <= i0 < s.len()) {
            None
        } else if s[i0] == '}' {
            Some(i0 + 1)
        } else {
            let i1 = if first {
                i0
            } else if s[i0] == ',' {
                skip_ws(s, i0 + 1)
            } else {
                -1
            };
            if !(i0 <= i1 < s.len()) {
                None
            } else {
                match parse_jstr(s, i1) {
                    None => None,
                    Some(kp) => {
                        let j = skip_ws(s, kp.1);
                        if !(i1 < j < s.len() && s[j] == ':') {
                            None
                        } else {
                            match skip_value(s, j + 1) {
                                None => None,
                                Some(j2) => if i < j2 <= s.len() {
                                    skip_obj_rest(s, j2, false)
                                } else {
                                    None
                                },
                            }
                        }
                    },
                }
            }
        }
    }
}

/// Skip the remainder of an array after its opening bracket.
pub open spec fn skip_arr_rest(s: Seq<char>, i: int, first: bool) -> Option<int>
    decreases s.len() - i, 1nat,
{
    if !(0 < i <= s.len()) {
        None
    } else {
        let i0 = skip_ws(s, i);
        if !(i <= i0 < s.len()) {
            None
        } else if s[i0] == ']' {
            Some(i0 + 1)
        } else {
            let i1: int = if first {
                i0
            } else if s[i0] == ',' {
                i0 + 1
            } else {
                -1
            };
            if !(i0 <= i1 <= s.len()) {
                None
            } else {
                match skip_value(s, i1) {
                    None => None,
                    Some(j2) => if i < j2 <= s.len() {
                        skip_arr_rest(s, j2, false)
                    } else {
                        None
                    },
                }
            }
        }
    }
}


/// The kind named by an element's `type` string.
pub open spec fn kind_of_name(s: Seq<char>) -> Option<OSMObjectType> {
    if s == "node"@ {
        Some(OSMObjectType::Node)
    } else if s == "way"@ {
        Some(OSMObjectType::Way)
    } else if s == "relation"@ {
        Some(OSMObjectType::Relation)
    } else {
        None
    }
}

/// The rest of a `tags` object after its opening brace: string keys to
/// string values.
pub open spec fn parse_tags_rest(s: Seq<char>, i: int, first: bool) -> Option<
    (Seq<(Seq<char>, Seq<char>)>, int),
>
    decreases s.len() - i,
{
    if !(0 < i <= s.len()) {
        None
    } else {
        let i0 = skip_ws(s, i);
        if !(i <= i0 < s.len()) {
            None
        } else if s[i0] == '}' {
            Some((Seq::empty(), i0 + 1))
        } else {
            let i1: int = if first {
                i0
            } else if s[i0] == ',' {
                skip_ws(s, i0 + 1)
            } else {
                -1
            };
            if !(i0 <= i1 < s.len()) {
                None
            } else {
                match parse_jstr(s, i1) {
                    None => None,
                    Some(kp) => {
                        let j2 = skip_ws(s, kp.1);
                        if !(i1 < j2 < s.len() && s[j2] == ':') {
                            None
                        } else {
                            let j3 = skip_ws(s, j2 + 1);
                            if !(j2 < j3 <= s.len()) {
                                None
                            } else {
                                match parse_jstr(s, j3) {
                                    None => None,
                                    Some(vp) => if i < vp.1 <= s.len() {
                                        match parse_tags_rest(s, vp.1, false) {
                                            None => None,
                                            Some(rp) => Some((seq![(kp.0, vp.0)] + rp.0, rp.1)),
                                        }
                                    } else {
                                        None
                                    },
                                }
                            }
                        }
                    },
                }
            }
        }
    }
}

/// The rest of a `nodes` array after its opening bracket: node ids.
pub open spec fn parse_nodes_rest(s: Seq<char>, i: int, first: bool) -> Option<(Seq<nat>, int)>
    decreases s.len() - i,
{
    if !(0 < i <= s.len()) {
        None
    } else {
        let i0 = skip_ws(s, i);
        if !(i <= i0 < s.len()) {
            None
        } else if s[i0] == ']' {
            Some((Seq::empty(), i0 + 1))
        } else {
            let i1: int = if first {
                i0
            } else if s[i0] == ',' {
                skip_ws(s, i0 + 1)
            } else {
                -1
            };
            if !(i0 <= i1 < s.len()) {
                None
            } else {
                match parse_jnum(s, i1) {
                    None => None,
                    Some(np) => match jnum_u64(np.0) {
                        None => None,
                        Some(v) => if i < np.1 <= s.len() {
                            match parse_nodes_rest(s, np.1, false) {
                                None => None,
                                Some(rp) => Some((seq![v] + rp.0, rp.1)),
                            }
                        } else {
                            None
                        },
                    },
                }
            }
        }
    }
}

/// One member object of a `members` array.
pub open spec fn parse_member_obj(s: Seq<char>, i: int) -> Option<(MemberV, int)>
    decreases s.len() - i, 1nat,
{
    if !(0 <= i <= s.len()) {
        None
    } else {
        let i0 = skip_ws(s, i);
        if !(i <= i0 < s.len() && s[i0] == '{') {
            None
        } else {
            member_fields(s, i0 + 1, true, None, None, None)
        }
    }
}

/// The fields of a member object, with what has been seen so far.
pub open spec fn member_fields(
    s: Seq<char>,
    i: int,
    first: bool,
    mt: Option<OSMObjectType>,
    mref: Option<nat>,
    mrole: Option<Seq<char>>,
) -> Option<(MemberV, int)>
    decreases s.len() - i, 0nat,
{
    if !(0 < i <= s.len()) {
        None
    } else {
        let i0 = skip_ws(s, i);
        if !(i <= i0 < s.len()) {
            None
        } else if s[i0] == '}' {
            match (mt, mref) {
                (Some(t), Some(rid)) => Some(
                    (
                        MemberV {
                            m_type: t,
                            ref_id: rid,
                            role: match mrole {
                                Some(ro) => ro,
                                None => Seq::empty(),
                            },
                        },
                        i0 + 1,
                    ),
                ),
                _ => None,
            }
        } else {
            let i1: int = if first {
                i0
            } else if s[i0] == ',' {
                skip_ws(s, i0 + 1)
            } else {
                -1
            };
            if !(i0 <= i1 < s.len()) {
                None
            } else {
                match parse_jstr(s, i1) {
                    None => None,
                    Some(kp) => {
                        let j2 = skip_ws(s, kp.1);
                        if !(i1 < j2 < s.len() && s[j2] == ':') {
                            None
                        } else {
                            let j3 = skip_ws(s, j2 + 1);
                            if !(j2 < j3 <= s.len()) {
                                None
                            } else if kp.0 == "type"@ {
                                match parse_jstr(s, j3) {
                                    None => None,
                                    Some(vp) => match kind_of_name(vp.0) {
                                        None => None,
                                        Some(t) => if i < vp.1 <= s.len() {
                                            member_fields(s, vp.1, false, Some(t), mref, mrole)
                                        } else {
                                            None
                                        },
                                    },
                                }
                            } else if kp.0 == "ref"@ {
                                match parse_jnum(s, j3) {
                                    None => None,
                                    Some(np) => match jnum_u64(np.0) {
                                        None => None,
                                        Some(v) => if i < np.1 <= s.len() {
                                            member_fields(s, np.1, false, mt, Some(v), mrole)
                                        } else {
                                            None
                                        },
                                    },
                                }
                            } else if kp.0 == "role"@ {
                                match parse_jstr(s, j3) {
                                    None => None,
                                    Some(vp) => if i < vp.1 <= s.len() {
                                        member_fields(s, vp.1, false, mt, mref, Some(vp.0))
                                    } else {
                                        None
                                    },
                                }
                            } else {
                                match skip_value(s, j3) {
                                    None => None,
                                    Some(j4) => if i < j4 <= s.len() {
                                        member_fields(s, j4, false, mt, mref, mrole)
                                    } else {
                                        None
                                    },
                                }
                            }
                        }
                    },
                }
            }
        }
    }
}

/// The rest of a `members` array after its opening bracket.
pub open spec fn parse_members_rest(s: Seq<char>, i: int, first: bool) -> Option<
    (Seq<MemberV>, int),
>
    decreases s.len() - i, 2nat,
{
    if !(0 < i <= s.len()) {
        None
    } else {
        let i0 = skip_ws(s, i);
        if !(i <= i0 < s.len()) {
            None
        } else if s[i0] == ']' {
            Some((Seq::empty(), i0 + 1))
        } else {
            let i1: int = if first {
                i0
            } else if s[i0] == ',' {
                i0 + 1
            } else {
                -1
            };
            if !(i0 <= i1 <= s.len()) {
                None
            } else {
                match parse_member_obj(s, i1) {
                    None => None,
                    Some(mp) => if i < mp.1 <= s.len() {
                        match parse_members_rest(s, mp.1, false) {
                            None => None,
                            Some(rp) => Some((seq![mp.0] + rp.0, rp.1)),
                        }
                    } else {
                        None
                    },
                }
            }
        }
    }
}

/// What has been read of an element so far.
pub struct ElemAccV {
    pub etype: Option<OSMObjectType>,
    pub id: Option<nat>,
    pub lon7: Option<int>,
    pub lat7: Option<int>,
    pub timestamp: Seq<char>,
    pub version: nat,
    pub changeset: nat,
    pub tags: Seq<(Seq<char>, Seq<char>)>,
    pub nodes: Seq<nat>,
    pub members: Seq<MemberV>,
}

pub open spec fn empty_acc() -> ElemAccV {
    ElemAccV {
        etype: None,
        id: None,
        lon7: None,
        lat7: None,
        timestamp: Seq::empty(),
        version: 0,
        changeset: 0,
        tags: Seq::empty(),
        nodes: Seq::empty(),
        members: Seq::empty(),
    }
}

/// The object an accumulator denotes once the element's brace closes.
pub open spec fn finalize_acc(acc: ElemAccV) -> Option<OSMObjectV> {
    match (acc.etype, acc.id) {
        (Some(t), Some(id)) => {
            let sp: Option<SpecificsV> = match t {
                OSMObjectType::Node => match (acc.lon7, acc.lat7) {
                    (Some(lon), Some(lat)) => Some(SpecificsV::Node { lon7: lon, lat7: lat }),
                    _ => None,
                },
                OSMObjectType::Way => Some(SpecificsV::Way { nodes: acc.nodes }),
                OSMObjectType::Relation => Some(SpecificsV::Relation { members: acc.members }),
            };
            match sp {
                Some(spv) => Some(
                    OSMObjectV {
                        id: id,
                        timestamp: acc.timestamp,
                        version: acc.version,
                        changeset: acc.changeset,
                        tags: acc.tags,
                        specifics: spv,
                    },
                ),
                None => None,
            }
        },
        _ => None,
    }
}

/// The fields of an element object, with what has been seen so far.
pub open spec fn element_fields(s: Seq<char>, i: int, first: bool, acc: ElemAccV) -> Option<
    (OSMObjectV, int),
>
    decreases s.len() - i,
{
    if !(0 < i <= s.len()) {
        None
    } else {
        let i0 = skip_ws(s, i);
        if !(i <= i0 < s.len()) {
            None
        } else if s[i0] == '}' {
            match finalize_acc(acc) {
                Some(o) => Some((o, i0 + 1)),
                None => None,
            }
        } else {
            let i1: int = if first {
                i0
            } else if s[i0] == ',' {
                skip_ws(s, i0 + 1)
            } else {
                -1
            };
            if !(i0 <= i1 < s.len()) {
                None
            } else {
                match parse_jstr(s, i1) {
                    None => None,
                    Some(kp) => {
                        let j2 = skip_ws(s, kp.1);
                        if !(i1 < j2 < s.len() && s[j2] == ':') {
                            None
                        } else {
                            let j3 = skip_ws(s, j2 + 1);
                            if !(j2 < j3 <= s.len()) {
                                None
                            } else {
                                element_field_value(s, i, j3, kp.0, acc)
                            }
                        }
                    },
                }
            }
        }
    }
}

/// Dispatch on one element field's key and read its value.
pub open spec fn element_field_value(
    s: Seq<char>,
    i: int,
    j3: int,
    key: Seq<char>,
    acc: ElemAccV,
) -> Option<(OSMObjectV, int)>
    decreases s.len() - i, s.len() - j3,
{
    if !(0 <= i < j3 <= s.len()) {
        None
    } else if key == "type"@ {
        match parse_jstr(s, j3) {
            None => None,
            Some(vp) => match kind_of_name(vp.0) {
                None => None,
                Some(t) => if i < vp.1 <= s.len() {
                    element_fields(s, vp.1, false, ElemAccV { etype: Some(t), ..acc })
                } else {
                    None
                },
            },
        }
    } else if key == "id"@ {
        match parse_jnum(s, j3) {
            None => None,
            Some(np) => match jnum_u64(np.0) {
                None => None,
                Some(v) => if i < np.1 <= s.len() {
                    element_fields(s, np.1, false, ElemAccV { id: Some(v), ..acc })
                } else {
                    None
                },
            },
        }
    } else if key == "lon"@ {
        match parse_jnum(s, j3) {
            None => None,
            Some(np) => match jnum_coord7(np.0) {
                None => None,
                Some(v) => if i < np.1 <= s.len() {
                    element_fields(s, np.1, false, ElemAccV { lon7: Some(v), ..acc })
                } else {
                    None
                },
            },
        }
    } else if key == "lat"@ {
        match parse_jnum(s, j3) {
            None => None,
            Some(np) => match jnum_coord7(np.0) {
                None => None,
                Some(v) => if i < np.1 <= s.len() {
                    element_fields(s, np.1, false, ElemAccV { lat7: Some(v), ..acc })
                } else {
                    None
                },
            },
        }
    } else if key == "timestamp"@ {
        match parse_jstr(s, j3) {
            None => None,
            Some(vp) => if i < vp.1 <= s.len() {
                element_fields(s, vp.1, false, ElemAccV { timestamp: vp.0, ..acc })
            } else {
                None
            },
        }
    } else if key == "version"@ {
        match parse_jnum(s, j3) {
            None => None,
            Some(np) => match jnum_u64(np.0) {
                None => None,
                Some(v) => if i < np.1 <= s.len() {
                    element_fields(s, np.1, false, ElemAccV { version: v, ..acc })
                } else {
                    None
                },
            },
        }
    } else if key == "changeset"@ {
        match parse_jnum(s, j3) {
            None => None,
            Some(np) => match jnum_u64(np.0) {
                None => None,
                Some(v) => if i < np.1 <= s.len() {
                    element_fields(s, np.1, false, ElemAccV { changeset: v, ..acc })
                } else {
                    None
                },
            },
        }
    } else if key == "tags"@ {
        if !(j3 < s.len() && s[j3] == '{') {
            None
        } else {
            match parse_tags_rest(s, j3 + 1, true) {
                None => None,
                Some(tp) => if i < tp.1 <= s.len() {
                    element_fields(s, tp.1, false, ElemAccV { tags: tp.0, ..acc })
                } else {
                    None
                },
            }
        }
    } else if key == "nodes"@ {
        if !(j3 < s.len() && s[j3] == '[') {
            None
        } else {
            match parse_nodes_rest(s, j3 + 1, true) {
                None => None,
                Some(np) => if i < np.1 <= s.len() {
                    element_fields(s, np.1, false, ElemAccV { nodes: np.0, ..acc })
                } else {
                    None
                },
            }
        }
    } else if key == "members"@ {
        if !(j3 < s.len() && s[j3] == '[') {
            None
        } else {
            match parse_members_rest(s, j3 + 1, true) {
                None => None,
                Some(mp) => if i < mp.1 <= s.len() {
                    element_fields(s, mp.1, false, ElemAccV { members: mp.0, ..acc })
                } else {
                    None
                },
            }
        }
    } else {
        match skip_value(s, j3) {
            None => None,
            Some(j4) => if i < j4 <= s.len() {
                element_fields(s, j4, false, acc)
            } else {
                None
            },
        }
    }
}

/// One element object at `i`, leading whitespace allowed.
pub open spec fn parse_element(s: Seq<char>, i: int) -> Option<(OSMObjectV, int)> {
    if !(0 <= i <= s.len()) {
        None
    } else {
        let i0 = skip_ws(s, i);
        if !(i <= i0 < s.len() && s[i0] == '{') {
            None
        } else {
            element_fields(s, i0 + 1, true, empty_acc())
        }
    }
}

/// The objects of an element stream from `i`: elements separated by a
/// single character; the first parse failure ends the stream, but a
/// stream that ends directly after an element (with no character left to
/// take the separator's place) is an error, `None`.
pub open spec fn stream_result(s: Seq<char>, i: int) -> Option<Seq<OSMObjectV>>
    decreases s.len() - i,
{
    if !(0 <= i <= s.len()) {
        None
    } else {
        match parse_element(s, i) {
            None => Some(Seq::empty()),
            Some(op) => if !(i < op.1 <= s.len()) {
                None
            } else if op.1 == s.len() {
                None
            } else {
                match stream_result(s, op.1 + 1) {
                    None => None,
                    Some(rest) => Some(seq![op.0] + rest),
                }
            },
        }
    }
}

/// The position after the first `[` of the text, where the element
/// stream begins.
pub open spec fn first_bracket_end(s: Seq<char>, i: int) -> Option<int>
    decreases s.len() - i,
{
    if !(0 <= i < s.len()) {
        None
    } else if s[i] == '[' {
        Some(i + 1)
    } else {
        first_bracket_end(s, i + 1)
    }
}


fn e_jnum_u64(neg: bool, ip: u64, f7: u32) -> (r: Option<u64>)
    ensures
        match r {
            Some(v) => jnum_u64(JNumV { neg, ip: ip as nat, f7: f7 as nat }) == Some(v as nat),
            None => jnum_u64(JNumV { neg, ip: ip as nat, f7: f7 as nat }) is None,
        },
{
    if !neg && f7 == 0 {
        Some(ip)
    } else {
        None
    }
}

fn e_jnum_coord7(neg: bool, ip: u64, f7: u32) -> (r: Option<i64>)
    requires
        f7 < 10000000,
    ensures
        match r {
            Some(v) => jnum_coord7(JNumV { neg, ip: ip as nat, f7: f7 as nat }) == Some(v as int),
            None => jnum_coord7(JNumV { neg, ip: ip as nat, f7: f7 as nat }) is None,
        },
{
    let m: u64 = i64::MAX as u64;
    if ip > (m - (f7 as u64)) / 10000000 {
        proof {
            assert((ip as nat) * 10000000 + (f7 as nat) > m as nat) by (nonlinear_arith)
                requires
                    (ip as nat) > ((m as nat) - (f7 as nat)) / 10000000 && (f7 as nat) < 10000000
                        && (f7 as nat) <= (m as nat),
            ;
        }
        return None;
    }
    proof {
        assert((ip as nat) * 10000000 + (f7 as nat) <= m as nat) by (nonlinear_arith)
            requires
                (ip as nat) <= ((m as nat) - (f7 as nat)) / 10000000 && (f7 as nat) < 10000000
                    && (f7 as nat) <= (m as nat),
        ;
    }
    let mag: u64 = ip * 10000000 + (f7 as u64);
    if neg {
        Some(-(mag as i64))
    } else {
        Some(mag as i64)
    }
}

fn e_skip_value(s: &Vec<char>, i: usize) -> (r: Option<usize>)
    requires
        i <= s@.len(),
    ensures
        match r {
            Some(j) => skip_value(s@, i as int) == Some(j as int) && i < j <= s@.len(),
            None => skip_value(s@, i as int) is None,
        },
    decreases s@.len() - i, 0nat,
{
    let i0 = e_skip_ws(s, i);
    if i0 >= s.len() {
        return None;
    }
    let c = s[i0];
    if c == '"' {
        match e_parse_jstr(s, i0) {
            Some(p) => Some(p.1),
            None => None,
        }
    } else if c == '{' {
        e_skip_obj_rest(s, i0 + 1, true)
    } else if c == '[' {
        e_skip_arr_rest(s, i0 + 1, true)
    } else if c == 't' {
        if s.len() - i0 > 3 && s[i0 + 1] == 'r' && s[i0 + 2] == 'u' && s[i0 + 3] == 'e' {
            Some(i0 + 4)
        } else {
            None
        }
    } else if c == 'f' {
        if s.len() - i0 > 4 && s[i0 + 1] == 'a' && s[i0 + 2] == 'l' && s[i0 + 3] == 's' && s[i0 + 4]
            == 'e' {
            Some(i0 + 5)
        } else {
            None
        }
    } else if c == 'n' {
        if s.len() - i0 > 3 && s[i0 + 1] == 'u' && s[i0 + 2] == 'l' && s[i0 + 3] == 'l' {
            Some(i0 + 4)
        } else {
            None
        }
    } else if c == '-' || crate::codec::is_digit_ch(c) {
        match e_parse_jnum(s, i0) {
            Some(p) => Some(p.1),
            None => None,
        }
    } else {
        None
    }
}

fn e_skip_obj_rest(s: &Vec<char>, i: usize, first: bool) -> (r: Option<usize>)
    requires
        0 < i <= s@.len(),
    ensures
        match r {
            Some(j) => skip_obj_rest(s@, i as int, first) == Some(j as int) && i <= j <= s@.len(),
            None => skip_obj_rest(s@, i as int, first) is None,
        },
    decreases s@.len() - i, 1nat,
{
    let i0 = e_skip_ws(s, i);
    if i0 >= s.len() {
        return None;
    }
    if s[i0] == '}' {
        return Some(i0 + 1);
    }
    let i1 = if first {
        i0
    } else if s[i0] == ',' {
        e_skip_ws(s, i0 + 1)
    } else {
        return None;
    };
    if i1 >= s.len() {
        return None;
    }
    let (_k, j) = match e_parse_jstr(s, i1) {
        Some(p) => p,
        None => {
            return None;
        },
    };
    let j2 = e_skip_ws(s, j);
    if !(j2 < s.len() && s[j2] == ':') {
        return None;
    }
    let j3 = match e_skip_value(s, j2 + 1) {
        Some(p) => p,
        None => {
            return None;
        },
    };
    e_skip_obj_rest(s, j3, false)
}

fn e_skip_arr_rest(s: &Vec<char>, i: usize, first: bool) -> (r: Option<usize>)
    requires
        0 < i <= s@.len(),
    ensures
        match r {
            Some(j) => skip_arr_rest(s@, i as int, first) == Some(j as int) && i <= j <= s@.len(),
            None => skip_arr_rest(s@, i as int, first) is None,
        },
    decreases s@.len() - i, 1nat,
{
    let i0 = e_skip_ws(s, i);
    if i0 >= s.len() {
        return None;
    }
    if s[i0] == ']' {
        return Some(i0 + 1);
    }
    let i1 = if first {
        i0
    } else if s[i0] == ',' {
        i0 + 1
    } else {
        return None;
    };
    let j2 = match e_skip_value(s, i1) {
        Some(p) => p,
        None => {
            return None;
        },
    };
    e_skip_arr_rest(s, j2, false)
}

fn e_parse_tags_rest(s: &Vec<char>, i: usize, first: bool) -> (r: Option<(Vec<Tag>, usize)>)
    requires
        0 < i <= s@.len(),
    ensures
        match r {
            Some(p) => parse_tags_rest(s@, i as int, first) == Some(
                (p.0@.map_values(|t: Tag| t@), p.1 as int),
            ) && i <= p.1 <= s@.len(),
            None => parse_tags_rest(s@, i as int, first) is None,
        },
    decreases s@.len() - i,
{
    let i0 = e_skip_ws(s, i);
    if i0 >= s.len() {
        return None;
    }
    if s[i0] == '}' {
        let v: Vec<Tag> = Vec::new();
        proof {
            assert(v@.map_values(|t: Tag| t@) =~= Seq::<(Seq<char>, Seq<char>)>::empty());
        }
        return Some((v, i0 + 1));
    }
    let i1 = if first {
        i0
    } else if s[i0] == ',' {
        e_skip_ws(s, i0 + 1)
    } else {
        return None;
    };
    if i1 >= s.len() {
        return None;
    }
    let (k, j) = match e_parse_jstr(s, i1) {
        Some(p) => p,
        None => {
            return None;
        },
    };
    let j2 = e_skip_ws(s, j);
    if !(j2 < s.len() && s[j2] == ':') {
        return None;
    }
    let j3 = e_skip_ws(s, j2 + 1);
    let (v, j4) = match e_parse_jstr(s, j3) {
        Some(p) => p,
        None => {
            return None;
        },
    };
    let (mut rest, j5) = match e_parse_tags_rest(s, j4, false) {
        Some(p) => p,
        None => {
            return None;
        },
    };
    let ghost rest_v = rest@.map_values(|t: Tag| t@);
    let tag = Tag { key: chars_to_string(&k), value: chars_to_string(&v) };
    rest.insert(0, tag);
    proof {
        assert(rest@.map_values(|t: Tag| t@) =~= seq![(k@, v@)] + rest_v);
    }
    Some((rest, j5))
}

fn e_parse_nodes_rest(s: &Vec<char>, i: usize, first: bool) -> (r: Option<(Vec<u64>, usize)>)
    requires
        0 < i <= s@.len(),
    ensures
        match r {
            Some(p) => parse_nodes_rest(s@, i as int, first) == Some(
                (p.0@.map_values(|n: u64| n as nat), p.1 as int),
            ) && i <= p.1 <= s@.len(),
            None => parse_nodes_rest(s@, i as int, first) is None,
        },
    decreases s@.len() - i,
{
    let i0 = e_skip_ws(s, i);
    if i0 >= s.len() {
        return None;
    }
    if s[i0] == ']' {
        let v: Vec<u64> = Vec::new();
        proof {
            assert(v@.map_values(|n: u64| n as nat) =~= Seq::<nat>::empty());
        }
        return Some((v, i0 + 1));
    }
    let i1 = if first {
        i0
    } else if s[i0] == ',' {
        e_skip_ws(s, i0 + 1)
    } else {
        return None;
    };
    if i1 >= s.len() {
        return None;
    }
    let (num, j) = match e_parse_jnum(s, i1) {
        Some(p) => p,
        None => {
            return None;
        },
    };
    let v = match e_jnum_u64(num.0, num.1, num.2) {
        Some(v) => v,
        None => {
            return None;
        },
    };
    let (mut rest, j2) = match e_parse_nodes_rest(s, j, false) {
        Some(p) => p,
        None => {
            return None;
        },
    };
    let ghost rest_v = rest@.map_values(|n: u64| n as nat);
    rest.insert(0, v);
    proof {
        assert(rest@.map_values(|n: u64| n as nat) =~= seq![v as nat] + rest_v);
    }
    Some((rest, j2))
}

fn e_parse_member_obj(s: &Vec<char>, i: usize) -> (r: Option<(OSMRelationMember, usize)>)
    requires
        i <= s@.len(),
    ensures
        match r {
            Some(p) => parse_member_obj(s@, i as int) == Some((p.0@, p.1 as int)) && i < p.1
                <= s@.len(),
            None => parse_member_obj(s@, i as int) is None,
        },
    decreases s@.len() - i, 1nat,
{
    let i0 = e_skip_ws(s, i);
    if !(i0 < s.len() && s[i0] == '{') {
        return None;
    }
    e_member_fields(s, i0 + 1, true, None, None, None)
}

fn e_member_fields(
    s: &Vec<char>,
    i: usize,
    first: bool,
    mt: Option<OSMObjectType>,
    mref: Option<u64>,
    mrole: Option<String>,
) -> (r: Option<(OSMRelationMember, usize)>)
    requires
        0 < i <= s@.len(),
    ensures
        match r {
            Some(p) => member_fields(
                s@,
                i as int,
                first,
                mt,
                match mref {
                    Some(v) => Some(v as nat),
                    None => None,
                },
                match mrole {
                    Some(ro) => Some(ro@),
                    None => None,
                },
            ) == Some((p.0@, p.1 as int)) && i <= p.1 <= s@.len(),
            None => member_fields(
                s@,
                i as int,
                first,
                mt,
                match mref {
                    Some(v) => Some(v as nat),
                    None => None,
                },
                match mrole {
                    Some(ro) => Some(ro@),
                    None => None,
                },
            ) is None,
        },
    decreases s@.len() - i, 0nat,
{
    let i0 = e_skip_ws(s, i);
    if i0 >= s.len() {
        return None;
    }
    if s[i0] == '}' {
        match (mt, mref) {
            (Some(t), Some(rid)) => {
                let role = match mrole {
                    Some(ro) => ro,
                    None => String::new(),
                };
                return Some((OSMRelationMember { m_type: t, ref_id: rid, role }, i0 + 1));
            },
            _ => {
                return None;
            },
        }
    }
    let i1 = if first {
        i0
    } else if s[i0] == ',' {
        e_skip_ws(s, i0 + 1)
    } else {
        return None;
    };
    if i1 >= s.len() {
        return None;
    }
    let (k, j) = match e_parse_jstr(s, i1) {
        Some(p) => p,
        None => {
            return None;
        },
    };
    let j2 = e_skip_ws(s, j);
    if !(j2 < s.len() && s[j2] == ':') {
        return None;
    }
    let j3 = e_skip_ws(s, j2 + 1);
    let ks = chars_to_string(&k);
    if str_eq(ks.as_str(), "type") {
        proof {
            reveal_strlit("type");
        }
        let (v, j4) = match e_parse_jstr(s, j3) {
            Some(p) => p,
            None => {
                return None;
            },
        };
        let vs = chars_to_string(&v);
        proof {
            reveal_strlit("node");
            reveal_strlit("way");
            reveal_strlit("relation");
        }
        let t = if str_eq(vs.as_str(), "node") {
            OSMObjectType::Node
        } else if str_eq(vs.as_str(), "way") {
            OSMObjectType::Way
        } else if str_eq(vs.as_str(), "relation") {
            OSMObjectType::Relation
        } else {
            return None;
        };
        e_member_fields(s, j4, false, Some(t), mref, mrole)
    } else if str_eq(ks.as_str(), "ref") {
        proof {
            reveal_strlit("ref");
        }
        let (num, j4) = match e_parse_jnum(s, j3) {
            Some(p) => p,
            None => {
                return None;
            },
        };
        let v = match e_jnum_u64(num.0, num.1, num.2) {
            Some(v) => v,
            None => {
                return None;
            },
        };
        e_member_fields(s, j4, false, mt, Some(v), mrole)
    } else if str_eq(ks.as_str(), "role") {
        proof {
            reveal_strlit("role");
        }
        let (v, j4) = match e_parse_jstr(s, j3) {
            Some(p) => p,
            None => {
                return None;
            },
        };
        e_member_fields(s, j4, false, mt, mref, Some(chars_to_string(&v)))
    } else {
        proof {
            reveal_strlit("type");
            reveal_strlit("ref");
            reveal_strlit("role");
        }
        let j4 = match e_skip_value(s, j3) {
            Some(p) => p,
            None => {
                return None;
            },
        };
        e_member_fields(s, j4, false, mt, mref, mrole)
    }
}

fn e_parse_members_rest(s: &Vec<char>, i: usize, first: bool) -> (r: Option<
    (Vec<OSMRelationMember>, usize),
>)
    requires
        0 < i <= s@.len(),
    ensures
        match r {
            Some(p) => parse_members_rest(s@, i as int, first) == Some(
                (p.0@.map_values(|m: OSMRelationMember| m@), p.1 as int),
            ) && i <= p.1 <= s@.len(),
            None => parse_members_rest(s@, i as int, first) is None,
        },
    decreases s@.len() - i, 2nat,
{
    let i0 = e_skip_ws(s, i);
    if i0 >= s.len() {
        return None;
    }
    if s[i0] == ']' {
        let v: Vec<OSMRelationMember> = Vec::new();
        proof {
            assert(v@.map_values(|m: OSMRelationMember| m@) =~= Seq::<MemberV>::empty());
        }
        return Some((v, i0 + 1));
    }
    let i1 = if first {
        i0
    } else if s[i0] == ',' {
        i0 + 1
    } else {
        return None;
    };
    let (m, j) = match e_parse_member_obj(s, i1) {
        Some(p) => p,
        None => {
            return None;
        },
    };
    let ghost m_v = m@;
    let (mut rest, j2) = match e_parse_members_rest(s, j, false) {
        Some(p) => p,
        None => {
            return None;
        },
    };
    let ghost rest_v = rest@.map_values(|m2: OSMRelationMember| m2@);
    rest.insert(0, m);
    proof {
        assert(rest@.map_values(|m2: OSMRelationMember| m2@) =~= seq![m_v] + rest_v);
    }
    Some((rest, j2))
}


/// What has been read of an element so far, executable form.
pub struct ElemAcc {
    pub etype: Option<OSMObjectType>,
    pub id: Option<u64>,
    pub lon7: Option<i64>,
    pub lat7: Option<i64>,
    pub timestamp: String,
    pub version: u64,
    pub changeset: u64,
    pub tags: Vec<Tag>,
    pub nodes: Vec<u64>,
    pub members: Vec<OSMRelationMember>,
}

impl View for ElemAcc {
    type V = ElemAccV;

    open spec fn view(&self) -> ElemAccV {
        ElemAccV {
            etype: self.etype,
            id: match self.id {
                Some(v) => Some(v as nat),
                None => None,
            },
            lon7: match self.lon7 {
                Some(v) => Some(v as int),
                None => None,
            },
            lat7: match self.lat7 {
                Some(v) => Some(v as int),
                None => None,
            },
            timestamp: self.timestamp@,
            version: self.version as nat,
            changeset: self.changeset as nat,
            tags: self.tags@.map_values(|t: Tag| t@),
            nodes: self.nodes@.map_values(|n: u64| n as nat),
            members: self.members@.map_values(|m: OSMRelationMember| m@),
        }
    }
}

fn e_finalize_acc(acc: ElemAcc) -> (r: Option<OSMObject>)
    ensures
        match r {
            Some(o) => finalize_acc(acc@) == Some(o@),
            None => finalize_acc(acc@) is None,
        },
{
    let t = match acc.etype {
        Some(t) => t,
        None => {
            return None;
        },
    };
    let id = match acc.id {
        Some(v) => v,
        None => {
            return None;
        },
    };
    let specifics = match t {
        OSMObjectType::Node => {
            let lon7 = match acc.lon7 {
                Some(v) => v,
                None => {
                    return None;
                },
            };
            let lat7 = match acc.lat7 {
                Some(v) => v,
                None => {
                    return None;
                },
            };
            OSMObjectSpecifics::Node { lon7, lat7 }
        },
        OSMObjectType::Way => OSMObjectSpecifics::Way { nodes: acc.nodes },
        OSMObjectType::Relation => OSMObjectSpecifics::Relation { members: acc.members },
    };
    Some(
        OSMObject {
            id,
            timestamp: acc.timestamp,
            version: acc.version,
            changeset: acc.changeset,
            tags: acc.tags,
            specifics,
        },
    )
}

fn e_element_fields(s: &Vec<char>, i: usize, first: bool, acc: ElemAcc) -> (r: Option<
    (OSMObject, usize),
>)
    requires
        0 < i <= s@.len(),
    ensures
        match r {
            Some(p) => element_fields(s@, i as int, first, acc@) == Some((p.0@, p.1 as int)) && i
                <= p.1 <= s@.len(),
            None => element_fields(s@, i as int, first, acc@) is None,
        },
    decreases s@.len() - i,
{
    let i0 = e_skip_ws(s, i);
    if i0 >= s.len() {
        return None;
    }
    if s[i0] == '}' {
        match e_finalize_acc(acc) {
            Some(o) => {
                return Some((o, i0 + 1));
            },
            None => {
                return None;
            },
        }
    }
    let i1 = if first {
        i0
    } else if s[i0] == ',' {
        e_skip_ws(s, i0 + 1)
    } else {
        return None;
    };
    if i1 >= s.len() {
        return None;
    }
    let (k, j) = match e_parse_jstr(s, i1) {
        Some(p) => p,
        None => {
            return None;
        },
    };
    let j2 = e_skip_ws(s, j);
    if !(j2 < s.len() && s[j2] == ':') {
        return None;
    }
    let j3 = e_skip_ws(s, j2 + 1);
    let ks = chars_to_string(&k);
    proof {
        reveal_strlit("type");
        reveal_strlit("id");
        reveal_strlit("lon");
        reveal_strlit("lat");
        reveal_strlit("timestamp");
        reveal_strlit("version");
        reveal_strlit("changeset");
        reveal_strlit("tags");
        reveal_strlit("nodes");
        reveal_strlit("members");
        reveal_strlit("node");
        reveal_strlit("way");
        reveal_strlit("relation");
    }
    if str_eq(ks.as_str(), "type") {
        let (v, j4) = match e_parse_jstr(s, j3) {
            Some(p) => p,
            None => {
                return None;
            },
        };
        let vs = chars_to_string(&v);
        let t = if str_eq(vs.as_str(), "node") {
            OSMObjectType::Node
        } else if str_eq(vs.as_str(), "way") {
            OSMObjectType::Way
        } else if str_eq(vs.as_str(), "relation") {
            OSMObjectType::Relation
        } else {
            return None;
        };
        e_element_fields(s, j4, false, ElemAcc { etype: Some(t), ..acc })
    } else if str_eq(ks.as_str(), "id") {
        let (num, j4) = match e_parse_jnum(s, j3) {
            Some(p) => p,
            None => {
                return None;
            },
        };
        let v = match e_jnum_u64(num.0, num.1, num.2) {
            Some(v) => v,
            None => {
                return None;
            },
        };
        e_element_fields(s, j4, false, ElemAcc { id: Some(v), ..acc })
    } else if str_eq(ks.as_str(), "lon") {
        let (num, j4) = match e_parse_jnum(s, j3) {
            Some(p) => p,
            None => {
                return None;
            },
        };
        let v = match e_jnum_coord7(num.0, num.1, num.2) {
            Some(v) => v,
            None => {
                return None;
            },
        };
        e_element_fields(s, j4, false, ElemAcc { lon7: Some(v), ..acc })
    } else if str_eq(ks.as_str(), "lat") {
        let (num, j4) = match e_parse_jnum(s, j3) {
            Some(p) => p,
            None => {
                return None;
            },
        };
        let v = match e_jnum_coord7(num.0, num.1, num.2) {
            Some(v) => v,
            None => {
                return None;
            },
        };
        e_element_fields(s, j4, false, ElemAcc { lat7: Some(v), ..acc })
    } else if str_eq(ks.as_str(), "timestamp") {
        let (v, j4) = match e_parse_jstr(s, j3) {
            Some(p) => p,
            None => {
                return None;
            },
        };
        e_element_fields(s, j4, false, ElemAcc { timestamp: chars_to_string(&v), ..acc })
    } else if str_eq(ks.as_str(), "version") {
        let (num, j4) = match e_parse_jnum(s, j3) {
            Some(p) => p,
            None => {
                return None;
            },
        };
        let v = match e_jnum_u64(num.0, num.1, num.2) {
            Some(v) => v,
            None => {
                return None;
            },
        };
        e_element_fields(s, j4, false, ElemAcc { version: v, ..acc })
    } else if str_eq(ks.as_str(), "changeset") {
        let (num, j4) = match e_parse_jnum(s, j3) {
            Some(p) => p,
            None => {
                return None;
            },
        };
        let v = match e_jnum_u64(num.0, num.1, num.2) {
            Some(v) => v,
            None => {
                return None;
            },
        };
        e_element_fields(s, j4, false, ElemAcc { changeset: v, ..acc })
    } else if str_eq(ks.as_str(), "tags") {
        if !(j3 < s.len() && s[j3] == '{') {
            return None;
        }
        let (tags, j4) = match e_parse_tags_rest(s, j3 + 1, true) {
            Some(p) => p,
            None => {
                return None;
            },
        };
        if !(i < j4) {
            return None;
        }
        e_element_fields(s, j4, false, ElemAcc { tags, ..acc })
    } else if str_eq(ks.as_str(), "nodes") {
        if !(j3 < s.len() && s[j3] == '[') {
            return None;
        }
        let (nodes, j4) = match e_parse_nodes_rest(s, j3 + 1, true) {
            Some(p) => p,
            None => {
                return None;
            },
        };
        if !(i < j4) {
            return None;
        }
        e_element_fields(s, j4, false, ElemAcc { nodes, ..acc })
    } else if str_eq(ks.as_str(), "members") {
        if !(j3 < s.len() && s[j3] == '[') {
            return None;
        }
        let (members, j4) = match e_parse_members_rest(s, j3 + 1, true) {
            Some(p) => p,
            None => {
                return None;
            },
        };
        if !(i < j4) {
            return None;
        }
        e_element_fields(s, j4, false, ElemAcc { members, ..acc })
    } else {
        let j4 = match e_skip_value(s, j3) {
            Some(p) => p,
            None => {
                return None;
            },
        };
        e_element_fields(s, j4, false, acc)
    }
}

/// Parse one element object, leading whitespace allowed.
pub fn e_parse_element(s: &Vec<char>, i: usize) -> (r: Option<(OSMObject, usize)>)
    requires
        i <= s@.len(),
    ensures
        match r {
            Some(p) => parse_element(s@, i as int) == Some((p.0@, p.1 as int)) && i < p.1
                <= s@.len(),
            None => parse_element(s@, i as int) is None,
        },
{
    let i0 = e_skip_ws(s, i);
    if !(i0 < s.len() && s[i0] == '{') {
        return None;
    }
    let acc = ElemAcc {
        etype: None,
        id: None,
        lon7: None,
        lat7: None,
        timestamp: String::new(),
        version: 0,
        changeset: 0,
        tags: Vec::new(),
        nodes: Vec::new(),
        members: Vec::new(),
    };
    proof {
        assert(acc@.tags =~= empty_acc().tags);
        assert(acc@.nodes =~= empty_acc().nodes);
        assert(acc@.members =~= empty_acc().members);
        assert(acc@ == empty_acc());
    }
    e_element_fields(s, i0 + 1, true, acc)
}

/// The position after the first `[` of the text.
pub fn e_first_bracket_end(s: &Vec<char>) -> (r: Option<usize>)
    ensures
        match r {
            Some(j) => first_bracket_end(s@, 0) == Some(j as int) && 0 < j <= s@.len(),
            None => first_bracket_end(s@, 0) is None,
        },
{
    let mut i: usize = 0;
    while i < s.len()
        invariant
            0 <= i <= s@.len(),
            first_bracket_end(s@, 0) == first_bracket_end(s@, i as int),
        decreases s@.len() - i,
    {
        if s[i] == '[' {
            return Some(i + 1);
        }
        i += 1;
    }
    None
}

/// Parse the element stream starting at `i`: elements separated by one
/// character each, ending at the first element that fails to parse.
pub fn e_parse_stream(s: &Vec<char>, i: usize) -> (r: Option<Vec<OSMObject>>)
    requires
        i <= s@.len(),
    ensures
        match r {
            Some(objs) => stream_result(s@, i as int) == Some(
                objs@.map_values(|o: OSMObject| o@),
            ),
            None => stream_result(s@, i as int) is None,
        },
    decreases s@.len() - i,
{
    let (o, j) = match e_parse_element(s, i) {
        Some(p) => p,
        None => {
            let v: Vec<OSMObject> = Vec::new();
            proof {
                assert(v@.map_values(|o: OSMObject| o@) =~= Seq::<OSMObjectV>::empty());
            }
            return Some(v);
        },
    };
    if j >= s.len() {
        return None;
    }
    let ghost o_v = o@;
    let (mut rest) = match e_parse_stream(s, j + 1) {
        Some(p) => p,
        None => {
            return None;
        },
    };
    let ghost rest_v = rest@.map_values(|o2: OSMObject| o2@);
    rest.insert(0, o);
    proof {
        assert(rest@.map_values(|o2: OSMObject| o2@) =~= seq![o_v] + rest_v);
    }
    Some(rest)
}

} // verus!
