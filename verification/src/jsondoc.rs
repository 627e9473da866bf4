//! A verified parser for the configuration document: a JSON object
//! holding a version string, a serial string, and twelve numeric fields,
//! each wrapped in an object with a single `value` number. Members may
//! appear in any order; members with unknown keys are skipped; a known
//! key appearing twice is an error; a missing known key is detected by
//! the record layer. Numbers are kept as their exact source tokens.

use vstd::prelude::*;
use vstd::string::StrSliceExecFns;
use crate::trusted::push_char;

verus! {

/// JSON insignificant whitespace.
pub open spec fn is_ws_char(c: char) -> bool {
    c == ' ' || c == '\t' || c == '\n' || c == '\r'
}

/// ASCII decimal digit.
pub open spec fn is_digit_char(c: char) -> bool {
    48 <= c as u32 && c as u32 <= 57
}

/// Index of the first non-whitespace character at or after `i`.
pub open spec fn skip_ws_s(s: Seq<char>, i: int) -> int
    decreases s.len() - i,
{
    if 0 <= i && i < s.len() && is_ws_char(s[i]) {
        skip_ws_s(s, i + 1)
    } else {
        i
    }
}

fn skip_ws(s: &str, n: usize, i: usize) -> (j: usize)
    requires
        n == s@.len(),
        i <= n,
    ensures
        j == skip_ws_s(s@, i as int),
        i <= j <= n,
    decreases n - i,
{
    if i < n {
        let c = s.get_char(i);
        if c == ' ' || c == '\t' || c == '\n' || c == '\r' {
            return skip_ws(s, n, i + 1);
        }
    }
    i
}

/// Value of one hexadecimal digit, upper or lower case.
pub open spec fn hex_val_s(c: char) -> Option<u32> {
    let v = c as u32;
    if 48 <= v && v <= 57 {
        Some((v - 48) as u32)
    } else if 65 <= v && v <= 70 {
        Some((v - 55) as u32)
    } else if 97 <= v && v <= 102 {
        Some((v - 87) as u32)
    } else {
        None
    }
}

fn hex_val(c: char) -> (r: Option<u32>)
    ensures
        r == hex_val_s(c),
{
    let v = c as u32;
    if 48 <= v && v <= 57 {
        Some(v - 48)
    } else if 65 <= v && v <= 70 {
        Some(v - 55)
    } else if 97 <= v && v <= 102 {
        Some(v - 87)
    } else {
        None
    }
}

/// Value of the four hexadecimal digits at `i`.
pub open spec fn hex4_s(s: Seq<char>, i: int) -> Option<u32>
    recommends
        0 <= i,
        i + 4 <= s.len(),
{
    match (hex_val_s(s[i]), hex_val_s(s[i + 1]), hex_val_s(s[i + 2]), hex_val_s(s[i + 3])) {
        (Some(a), Some(b), Some(c), Some(d)) => Some(
            (a * 0x1000 + b * 0x100 + c * 0x10 + d) as u32,
        ),
        _ => None,
    }
}

fn hex4(s: &str, n: usize, i: usize) -> (r: Option<u32>)
    requires
        n == s@.len(),
        i + 4 <= n,
    ensures
        r == hex4_s(s@, i as int),
{
    let a = hex_val(s.get_char(i));
    let b = hex_val(s.get_char(i + 1));
    let c = hex_val(s.get_char(i + 2));
    let d = hex_val(s.get_char(i + 3));
    match (a, b, c, d) {
        (Some(a), Some(b), Some(c), Some(d)) => Some(a * 0x1000 + b * 0x100 + c * 0x10 + d),
        _ => None,
    }
}

/// The character a single-character string escape stands for.
pub open spec fn escape_char_s(e: char) -> Option<char> {
    if e == '"' {
        Some('"')
    } else if e == '\\' {
        Some('\\')
    } else if e == '/' {
        Some('/')
    } else if e == 'b' {
        Some('\u{0008}')
    } else if e == 'f' {
        Some('\u{000C}')
    } else if e == 'n' {
        Some('\n')
    } else if e == 'r' {
        Some('\r')
    } else if e == 't' {
        Some('\t')
    } else {
        None
    }
}

fn escape_char(e: char) -> (r: Option<char>)
    ensures
        r == escape_char_s(e),
{
    if e == '"' {
        Some('"')
    } else if e == '\\' {
        Some('\\')
    } else if e == '/' {
        Some('/')
    } else if e == 'b' {
        Some('\u{0008}')
    } else if e == 'f' {
        Some('\u{000C}')
    } else if e == 'n' {
        Some('\n')
    } else if e == 'r' {
        Some('\r')
    } else if e == 't' {
        Some('\t')
    } else {
        None
    }
}

/// The scalar value a surrogate pair encodes.
pub open spec fn surrogate_scalar(hi: u32, lo: u32) -> u32
    recommends
        0xD800 <= hi < 0xDC00,
        0xDC00 <= lo < 0xE000,
{
    (0x10000 + (hi - 0xD800) * 0x400 + (lo - 0xDC00)) as u32
}

/// Body of a JSON string, starting after the opening quote: the unescaped
/// characters collected so far are in `acc`; the result is the full
/// unescaped contents and the index just past the closing quote. Raw
/// control characters, bad escapes and lone surrogates are rejected.
pub open spec fn str_body_s(s: Seq<char>, i: int, acc: Seq<char>) -> Option<(Seq<char>, int)>
    decreases s.len() - i,
{
    if i < 0 || i >= s.len() {
        None
    } else {
        let c = s[i];
        if c == '"' {
            Some((acc, i + 1))
        } else if c == '\\' {
            if i + 2 > s.len() {
                None
            } else {
                let e = s[i + 1];
                if e == 'u' {
                    if i + 6 > s.len() {
                        None
                    } else {
                        match hex4_s(s, i + 2) {
                            None => None,
                            Some(v) => {
                                if v < 0xD800 || v >= 0xE000 {
                                    str_body_s(s, i + 6, acc.push(v as char))
                                } else if v < 0xDC00 {
                                    if i + 12 <= s.len() && s[i + 6] == '\\' && s[i + 7] == 'u' {
                                        match hex4_s(s, i + 8) {
                                            None => None,
                                            Some(w) => {
                                                if 0xDC00 <= w && w < 0xE000 {
                                                    str_body_s(
                                                        s,
                                                        i + 12,
                                                        acc.push(surrogate_scalar(v, w) as char),
                                                    )
                                                } else {
                                                    None
                                                }
                                            },
                                        }
                                    } else {
                                        None
                                    }
                                } else {
                                    None
                                }
                            },
                        }
                    }
                } else {
                    match escape_char_s(e) {
                        Some(d) => str_body_s(s, i + 2, acc.push(d)),
                        None => None,
                    }
                }
            }
        } else if (c as u32) < 32 {
            None
        } else {
            str_body_s(s, i + 1, acc.push(c))
        }
    }
}

fn str_body(s: &str, n: usize, i: usize, acc: String) -> (r: Option<(String, usize)>)
    requires
        n == s@.len(),
        i <= n,
    ensures
        match r {
            Some(p) => str_body_s(s@, i as int, acc@) == Some((p.0@, p.1 as int)) && i < p.1 <= n,
            None => str_body_s(s@, i as int, acc@) is None,
        },
    decreases n - i,
{
    if i >= n {
        return None;
    }
    let c = s.get_char(i);
    if c == '"' {
        Some((acc, i + 1))
    } else if c == '\\' {
        if n - i < 2 {
            return None;
        }
        let e = s.get_char(i + 1);
        if e == 'u' {
            if n - i < 6 {
                return None;
            }
            match hex4(s, n, i + 2) {
                None => None,
                Some(v) => {
                    if v < 0xD800 || v >= 0xE000 {
                        let ch = char::from_u32(v).unwrap();
                        proof {
                            vstd::utf8::char_u32_cast(ch, v);
                        }
                        let mut acc2 = acc;
                        push_char(&mut acc2, ch);
                        str_body(s, n, i + 6, acc2)
                    } else if v < 0xDC00 {
                        if 12 <= n - i && s.get_char(i + 6) == '\\' && s.get_char(i + 7) == 'u' {
                            match hex4(s, n, i + 8) {
                                None => None,
                                Some(w) => {
                                    if 0xDC00 <= w && w < 0xE000 {
                                        let sc = 0x10000 + (v - 0xD800) * 0x400 + (w - 0xDC00);
                                        let ch = char::from_u32(sc).unwrap();
                                        proof {
                                            vstd::utf8::char_u32_cast(ch, sc);
                                        }
                                        let mut acc2 = acc;
                                        push_char(&mut acc2, ch);
                                        str_body(s, n, i + 12, acc2)
                                    } else {
                                        None
                                    }
                                },
                            }
                        } else {
                            None
                        }
                    } else {
                        None
                    }
                },
            }
        } else {
            match escape_char(e) {
                Some(d) => {
                    let mut acc2 = acc;
                    push_char(&mut acc2, d);
                    str_body(s, n, i + 2, acc2)
                },
                None => None,
            }
        }
    } else {
        let cv = c as u32;
        if cv < 32 {
            None
        } else {
            let mut acc2 = acc;
            push_char(&mut acc2, c);
            str_body(s, n, i + 1, acc2)
        }
    }
}

/// A JSON string at `i`: an opening quote, a body, a closing quote.
pub open spec fn parse_string_s(s: Seq<char>, i: int) -> Option<(Seq<char>, int)> {
    if 0 <= i && i < s.len() && s[i] == '"' {
        str_body_s(s, i + 1, Seq::empty())
    } else {
        None
    }
}

fn parse_string(s: &str, n: usize, i: usize) -> (r: Option<(String, usize)>)
    requires
        n == s@.len(),
        i <= n,
    ensures
        match r {
            Some(p) => parse_string_s(s@, i as int) == Some((p.0@, p.1 as int)) && i < p.1 <= n,
            None => parse_string_s(s@, i as int) is None,
        },
{
    if i < n && s.get_char(i) == '"' {
        str_body(s, n, i + 1, String::new())
    } else {
        None
    }
}

/// Index of the first non-digit character at or after `i`.
pub open spec fn digits_end_s(s: Seq<char>, i: int) -> int
    decreases s.len() - i,
{
    if 0 <= i && i < s.len() && is_digit_char(s[i]) {
        digits_end_s(s, i + 1)
    } else {
        i
    }
}

fn digits_end(s: &str, n: usize, i: usize) -> (j: usize)
    requires
        n == s@.len(),
        i <= n,
    ensures
        j == digits_end_s(s@, i as int),
        i <= j <= n,
        i < n && is_digit_char(s@[i as int]) ==> i < j,
    decreases n - i,
{
    if i < n {
        let v = s.get_char(i) as u32;
        if 48 <= v && v <= 57 {
            return digits_end(s, n, i + 1);
        }
    }
    i
}

/// End of the optional fraction part starting at `j`: either there is no
/// dot, or the dot must be followed by at least one digit.
pub open spec fn frac_end_s(s: Seq<char>, j: int) -> Option<int> {
    if 0 <= j && j < s.len() && s[j] == '.' {
        if j + 1 < s.len() && is_digit_char(s[j + 1]) {
            Some(digits_end_s(s, j + 1))
        } else {
            None
        }
    } else {
        Some(j)
    }
}

/// End of the optional exponent part starting at `j`.
pub open spec fn exp_end_s(s: Seq<char>, j: int) -> Option<int> {
    if 0 <= j && j < s.len() && (s[j] == 'e' || s[j] == 'E') {
        let k = if j + 1 < s.len() && (s[j + 1] == '+' || s[j + 1] == '-') {
            j + 2
        } else {
            j + 1
        };
        if 0 <= k && k < s.len() && is_digit_char(s[k]) {
            Some(digits_end_s(s, k))
        } else {
            None
        }
    } else {
        Some(j)
    }
}

/// End of a JSON number token at `i`: optional minus, an integer part
/// with no leading zero, optional fraction and exponent.
pub open spec fn num_end_s(s: Seq<char>, i: int) -> Option<int> {
    let j0 = if 0 <= i && i < s.len() && s[i] == '-' {
        i + 1
    } else {
        i
    };
    if 0 <= j0 && j0 < s.len() && is_digit_char(s[j0]) {
        let j1 = if s[j0] == '0' {
            j0 + 1
        } else {
            digits_end_s(s, j0)
        };
        match frac_end_s(s, j1) {
            None => None,
            Some(j2) => exp_end_s(s, j2),
        }
    } else {
        None
    }
}

fn num_end(s: &str, n: usize, i: usize) -> (r: Option<usize>)
    requires
        n == s@.len(),
        i <= n,
    ensures
        match r {
            Some(j) => num_end_s(s@, i as int) == Some(j as int) && i < j <= n,
            None => num_end_s(s@, i as int) is None,
        },
{
    let j0 = if i < n && s.get_char(i) == '-' {
        i + 1
    } else {
        i
    };
    if !(j0 < n) {
        return None;
    }
    let c0 = s.get_char(j0) as u32;
    if !(48 <= c0 && c0 <= 57) {
        return None;
    }
    let j1 = if c0 == 48 {
        j0 + 1
    } else {
        digits_end(s, n, j0)
    };
    // fraction
    let j2 = if j1 < n && s.get_char(j1) == '.' {
        if j1 + 1 < n {
            let d = s.get_char(j1 + 1) as u32;
            if 48 <= d && d <= 57 {
                digits_end(s, n, j1 + 1)
            } else {
                return None;
            }
        } else {
            return None;
        }
    } else {
        j1
    };
    // exponent
    if j2 < n {
        let e = s.get_char(j2);
        if e == 'e' || e == 'E' {
            let k = if j2 + 1 < n {
                let sg = s.get_char(j2 + 1);
                if sg == '+' || sg == '-' {
                    j2 + 2
                } else {
                    j2 + 1
                }
            } else {
                j2 + 1
            };
            if k < n {
                let d = s.get_char(k) as u32;
                if 48 <= d && d <= 57 {
                    return Some(digits_end(s, n, k));
                }
            }
            return None;
        }
    }
    Some(j2)
}

/// Scans past the rest of a bracketed value whose opening bracket has
/// already been consumed, tracking only bracket depth and string
/// boundaries. Values under unknown keys are skipped with this scan; it
/// checks strings and bracket balance but not the full grammar inside.
pub open spec fn scan_end_s(s: Seq<char>, i: int, depth: int, in_str: bool, esc: bool) -> Option<
    int,
>
    decreases s.len() - i,
{
    if i < 0 || i >= s.len() {
        None
    } else {
        let c = s[i];
        if in_str {
            if esc {
                scan_end_s(s, i + 1, depth, true, false)
            } else if c == '\\' {
                scan_end_s(s, i + 1, depth, true, true)
            } else if c == '"' {
                scan_end_s(s, i + 1, depth, false, false)
            } else if (c as u32) < 32 {
                None
            } else {
                scan_end_s(s, i + 1, depth, true, false)
            }
        } else if c == '{' || c == '[' {
            scan_end_s(s, i + 1, depth + 1, false, false)
        } else if c == '}' || c == ']' {
            if depth <= 1 {
                Some(i + 1)
            } else {
                scan_end_s(s, i + 1, depth - 1, false, false)
            }
        } else if c == '"' {
            scan_end_s(s, i + 1, depth, true, false)
        } else {
            scan_end_s(s, i + 1, depth, false, false)
        }
    }
}

fn scan_end(s: &str, n: usize, i: usize, depth: usize, in_str: bool, esc: bool) -> (r: Option<
    usize,
>)
    requires
        n == s@.len(),
        i <= n,
        depth <= i,
    ensures
        match r {
            Some(j) => scan_end_s(s@, i as int, depth as int, in_str, esc) == Some(j as int) && i
                < j <= n,
            None => scan_end_s(s@, i as int, depth as int, in_str, esc) is None,
        },
    decreases n - i,
{
    if i >= n {
        return None;
    }
    let c = s.get_char(i);
    if in_str {
        if esc {
            scan_end(s, n, i + 1, depth, true, false)
        } else if c == '\\' {
            scan_end(s, n, i + 1, depth, true, true)
        } else if c == '"' {
            scan_end(s, n, i + 1, depth, false, false)
        } else if (c as u32) < 32 {
            None
        } else {
            scan_end(s, n, i + 1, depth, true, false)
        }
    } else if c == '{' || c == '[' {
        scan_end(s, n, i + 1, depth + 1, false, false)
    } else if c == '}' || c == ']' {
        if depth <= 1 {
            Some(i + 1)
        } else {
            scan_end(s, n, i + 1, depth - 1, false, false)
        }
    } else if c == '"' {
        scan_end(s, n, i + 1, depth, true, false)
    } else {
        scan_end(s, n, i + 1, depth, false, false)
    }
}

/// Skips one JSON value of any kind at `i`, returning the index just
/// past it.
pub open spec fn skip_value_s(s: Seq<char>, i: int) -> Option<int> {
    if i < 0 || i >= s.len() {
        None
    } else {
        let c = s[i];
        if c == '"' {
            match parse_string_s(s, i) {
                Some(p) => Some(p.1),
                None => None,
            }
        } else if c == '-' || is_digit_char(c) {
            num_end_s(s, i)
        } else if c == 't' {
            if i + 4 <= s.len() && s.subrange(i, i + 4) == "true"@ {
                Some(i + 4)
            } else {
                None
            }
        } else if c == 'f' {
            if i + 5 <= s.len() && s.subrange(i, i + 5) == "false"@ {
                Some(i + 5)
            } else {
                None
            }
        } else if c == 'n' {
            if i + 4 <= s.len() && s.subrange(i, i + 4) == "null"@ {
                Some(i + 4)
            } else {
                None
            }
        } else if c == '{' || c == '[' {
            scan_end_s(s, i + 1, 1, false, false)
        } else {
            None
        }
    }
}

/// True when the `wn` characters of `w` appear in `s` at `i`.
fn expect_word(s: &str, n: usize, i: usize, w: &str, wn: usize) -> (r: bool)
    requires
        n == s@.len(),
        i <= n,
        wn == w@.len(),
    ensures
        r == (i + wn <= n && s@.subrange(i as int, i as int + wn as int) == w@),
{
    if n - i < wn {
        return false;
    }
    let mut k: usize = 0;
    while k < wn
        invariant
            n == s@.len(),
            wn == w@.len(),
            i + wn <= n,
            k <= wn,
            s@.subrange(i as int, i as int + k as int) == w@.subrange(0, k as int),
        decreases wn - k,
    {
        if s.get_char(i + k) != w.get_char(k) {
            proof {
                let sub = s@.subrange(i as int, i as int + wn as int);
                if sub == w@ {
                    assert(sub[k as int] == w@[k as int]);
                }
            }
            return false;
        }
        k += 1;
        proof {
            assert(s@.subrange(i as int, i as int + k as int) =~= w@.subrange(0, k as int));
        }
    }
    proof {
        assert(s@.subrange(i as int, i as int + wn as int) =~= w@);
    }
    true
}

fn skip_value(s: &str, n: usize, i: usize) -> (r: Option<usize>)
    requires
        n == s@.len(),
        i <= n,
    ensures
        match r {
            Some(j) => skip_value_s(s@, i as int) == Some(j as int) && i < j <= n,
            None => skip_value_s(s@, i as int) is None,
        },
{
    if i >= n {
        return None;
    }
    let c = s.get_char(i);
    if c == '"' {
        match parse_string(s, n, i) {
            Some(p) => Some(p.1),
            None => None,
        }
    } else if c == '-' || (48 <= c as u32 && c as u32 <= 57) {
        num_end(s, n, i)
    } else if c == 't' {
        proof {
            reveal_strlit("true");
        }
        if expect_word(s, n, i, "true", 4) {
            Some(i + 4)
        } else {
            None
        }
    } else if c == 'f' {
        proof {
            reveal_strlit("false");
        }
        if expect_word(s, n, i, "false", 5) {
            Some(i + 5)
        } else {
            None
        }
    } else if c == 'n' {
        proof {
            reveal_strlit("null");
        }
        if expect_word(s, n, i, "null", 4) {
            Some(i + 4)
        } else {
            None
        }
    } else if c == '{' || c == '[' {
        scan_end(s, n, i + 1, 1, false, false)
    } else {
        None
    }
}

/// Members of a `{"value": <number>}` wrapper object, starting right
/// after the opening brace or a comma: members may come in any order,
/// unknown keys are skipped, a second `value` is an error, and the number
/// token under `value` must be present by the closing brace.
pub open spec fn vmap_members_s(s: Seq<char>, i: int, tok: Option<Seq<char>>) -> Option<
    (Seq<char>, int),
>
    decreases s.len() - i,
{
    let j0 = skip_ws_s(s, i);
    match parse_string_s(s, j0) {
        None => None,
        Some(kp) => {
            let key = kp.0;
            let j2 = skip_ws_s(s, kp.1);
            if 0 <= j2 && j2 < s.len() && s[j2] == ':' {
                let j3 = skip_ws_s(s, j2 + 1);
                let step: Option<(Option<Seq<char>>, int)> = if key == "value"@ {
                    if tok is Some {
                        None
                    } else {
                        match num_end_s(s, j3) {
                            Some(j4) => Some((Some(s.subrange(j3, j4)), j4)),
                            None => None,
                        }
                    }
                } else {
                    match skip_value_s(s, j3) {
                        Some(j4) => Some((tok, j4)),
                        None => None,
                    }
                };
                match step {
                    None => None,
                    Some(st) => {
                        let j5 = skip_ws_s(s, st.1);
                        if 0 <= j5 && j5 < s.len() && s[j5] == ',' {
                            if i < j5 + 1 && j5 + 1 <= s.len() {
                                vmap_members_s(s, j5 + 1, st.0)
                            } else {
                                None
                            }
                        } else if 0 <= j5 && j5 < s.len() && s[j5] == '}' {
                            match st.0 {
                                Some(t) => Some((t, j5 + 1)),
                                None => None,
                            }
                        } else {
                            None
                        }
                    },
                }
            } else {
                None
            }
        },
    }
}

/// A `{"value": <number>}` wrapper object at `i`; yields the number
/// token and the index just past the closing brace.
pub open spec fn vmap_s(s: Seq<char>, i: int) -> Option<(Seq<char>, int)> {
    if 0 <= i && i < s.len() && s[i] == '{' {
        vmap_members_s(s, i + 1, None)
    } else {
        None
    }
}

fn vmap_members(s: &str, n: usize, i: usize, tok: Option<String>) -> (r: Option<(String, usize)>)
    requires
        n == s@.len(),
        i <= n,
        tok matches Some(tk) ==> crate::numtok::wf_number_token(tk@),
    ensures
        match r {
            Some(p) => vmap_members_s(s@, i as int, tok.deep_view()) == Some((p.0@, p.1 as int))
                && i < p.1 <= n && crate::numtok::wf_number_token(p.0@),
            None => vmap_members_s(s@, i as int, tok.deep_view()) is None,
        },
    decreases n - i,
{
    let j0 = skip_ws(s, n, i);
    match parse_string(s, n, j0) {
        None => None,
        Some((key, j1)) => {
            let j2 = skip_ws(s, n, j1);
            if j2 < n && s.get_char(j2) == ':' {
                let j3 = skip_ws(s, n, j2 + 1);
                let step: Option<(Option<String>, usize)> = if str_eq(key.as_str(), "value") {
                    if tok.is_some() {
                        None
                    } else {
                        match num_end(s, n, j3) {
                            Some(j4) => {
                                proof {
                                    crate::numtok::lemma_num_token_wf(s@, j3 as int, j4 as int);
                                }
                                Some((Some(s.substring_char(j3, j4).to_owned()), j4))
                            },
                            None => None,
                        }
                    }
                } else {
                    match skip_value(s, n, j3) {
                        Some(j4) => Some((tok, j4)),
                        None => None,
                    }
                };
                match step {
                    None => None,
                    Some((tok2, j4)) => {
                        let j5 = skip_ws(s, n, j4);
                        if j5 < n && s.get_char(j5) == ',' {
                            vmap_members(s, n, j5 + 1, tok2)
                        } else if j5 < n && s.get_char(j5) == '}' {
                            match tok2 {
                                Some(t) => Some((t, j5 + 1)),
                                None => None,
                            }
                        } else {
                            None
                        }
                    },
                }
            } else {
                None
            }
        },
    }
}

fn vmap(s: &str, n: usize, i: usize) -> (r: Option<(String, usize)>)
    requires
        n == s@.len(),
        i <= n,
    ensures
        match r {
            Some(p) => vmap_s(s@, i as int) == Some((p.0@, p.1 as int)) && i < p.1 <= n
                && crate::numtok::wf_number_token(p.0@),
            None => vmap_s(s@, i as int) is None,
        },
{
    if i < n && s.get_char(i) == '{' {
        vmap_members(s, n, i + 1, None)
    } else {
        None
    }
}

/// True when the two strings hold the same characters.
pub fn str_eq(a: &str, b: &str) -> (r: bool)
    ensures
        r == (a@ == b@),
{
    let na = a.unicode_len();
    let nb = b.unicode_len();
    if na != nb {
        return false;
    }
    let mut k: usize = 0;
    while k < na
        invariant
            na == a@.len(),
            na == b@.len(),
            k <= na,
            forall|m: int| 0 <= m < k ==> a@[m] == b@[m],
        decreases na - k,
    {
        if a.get_char(k) != b.get_char(k) {
            proof {
                if a@ == b@ {
                    assert(a@[k as int] == b@[k as int]);
                }
            }
            return false;
        }
        k += 1;
    }
    proof {
        assert(a@ =~= b@);
    }
    true
}

/// The named document fields as the parser collects them: absent until
/// their member has been seen, with each numeric field keeping the exact
/// number token of its `value`.
pub struct DocFieldsSpec {
    pub version: Option<Seq<char>>,
    pub serial: Option<Seq<char>>,
    pub nums: Seq<Option<Seq<char>>>,
}

/// Slot of each numeric field inside `nums`.
pub open spec fn num_key_index(k: Seq<char>) -> Option<int> {
    if k == "pitch"@ {
        Some(0)
    } else if k == "slope"@ {
        Some(1)
    } else if k == "center"@ {
        Some(2)
    } else if k == "viewCone"@ {
        Some(3)
    } else if k == "invView"@ {
        Some(4)
    } else if k == "verticalAngle"@ {
        Some(5)
    } else if k == "DPI"@ {
        Some(6)
    } else if k == "screenW"@ {
        Some(7)
    } else if k == "screenH"@ {
        Some(8)
    } else if k == "flipImageX"@ {
        Some(9)
    } else if k == "flipImageY"@ {
        Some(10)
    } else if k == "flipSubp"@ {
        Some(11)
    } else {
        None
    }
}

fn num_key(key: &str) -> (r: Option<usize>)
    ensures
        match r {
            Some(k) => num_key_index(key@) == Some(k as int) && k < 12,
            None => num_key_index(key@) is None,
        },
{
    if str_eq(key, "pitch") {
        Some(0)
    } else if str_eq(key, "slope") {
        Some(1)
    } else if str_eq(key, "center") {
        Some(2)
    } else if str_eq(key, "viewCone") {
        Some(3)
    } else if str_eq(key, "invView") {
        Some(4)
    } else if str_eq(key, "verticalAngle") {
        Some(5)
    } else if str_eq(key, "DPI") {
        Some(6)
    } else if str_eq(key, "screenW") {
        Some(7)
    } else if str_eq(key, "screenH") {
        Some(8)
    } else if str_eq(key, "flipImageX") {
        Some(9)
    } else if str_eq(key, "flipImageY") {
        Some(10)
    } else if str_eq(key, "flipSubp") {
        Some(11)
    } else {
        None
    }
}

/// Members of the top-level document object, starting right after the
/// opening brace or a comma. Known keys fill their field, and filling one
/// twice is an error; unknown keys have their value skipped.
pub open spec fn members_s(s: Seq<char>, i: int, f: DocFieldsSpec) -> Option<(DocFieldsSpec, int)>
    decreases s.len() - i,
{
    let j0 = skip_ws_s(s, i);
    match parse_string_s(s, j0) {
        None => None,
        Some(kp) => {
            let key = kp.0;
            let j2 = skip_ws_s(s, kp.1);
            if 0 <= j2 && j2 < s.len() && s[j2] == ':' {
                let j3 = skip_ws_s(s, j2 + 1);
                let step: Option<(DocFieldsSpec, int)> = if key == "configVersion"@ {
                    if f.version is Some {
                        None
                    } else {
                        match parse_string_s(s, j3) {
                            Some(vp) => Some(
                                (
                                    DocFieldsSpec {
                                        version: Some(vp.0),
                                        serial: f.serial,
                                        nums: f.nums,
                                    },
                                    vp.1,
                                ),
                            ),
                            None => None,
                        }
                    }
                } else if key == "serial"@ {
                    if f.serial is Some {
                        None
                    } else {
                        match parse_string_s(s, j3) {
                            Some(vp) => Some(
                                (
                                    DocFieldsSpec {
                                        version: f.version,
                                        serial: Some(vp.0),
                                        nums: f.nums,
                                    },
                                    vp.1,
                                ),
                            ),
                            None => None,
                        }
                    }
                } else {
                    match num_key_index(key) {
                        Some(k) => {
                            if f.nums[k] is Some {
                                None
                            } else {
                                match vmap_s(s, j3) {
                                    Some(tp) => Some(
                                        (
                                            DocFieldsSpec {
                                                version: f.version,
                                                serial: f.serial,
                                                nums: f.nums.update(k, Some(tp.0)),
                                            },
                                            tp.1,
                                        ),
                                    ),
                                    None => None,
                                }
                            }
                        },
                        None => {
                            match skip_value_s(s, j3) {
                                Some(j4) => Some((f, j4)),
                                None => None,
                            }
                        },
                    }
                };
                match step {
                    None => None,
                    Some(st) => {
                        let j5 = skip_ws_s(s, st.1);
                        if 0 <= j5 && j5 < s.len() && s[j5] == ',' {
                            if i < j5 + 1 && j5 + 1 <= s.len() {
                                members_s(s, j5 + 1, st.0)
                            } else {
                                None
                            }
                        } else if 0 <= j5 && j5 < s.len() && s[j5] == '}' {
                            Some((st.0, j5 + 1))
                        } else {
                            None
                        }
                    },
                }
            } else {
                None
            }
        },
    }
}

/// The document fields before any member has been parsed.
pub open spec fn empty_fields() -> DocFieldsSpec {
    DocFieldsSpec { version: None, serial: None, nums: Seq::new(12, |k: int| None) }
}

/// The whole document: optional whitespace, one object, optional
/// whitespace, end of input.
pub open spec fn parse_doc_s(s: Seq<char>) -> Option<DocFieldsSpec> {
    let i0 = skip_ws_s(s, 0);
    if 0 <= i0 && i0 < s.len() && s[i0] == '{' {
        match members_s(s, i0 + 1, empty_fields()) {
            Some(p) => {
                if skip_ws_s(s, p.1) == s.len() {
                    Some(p.0)
                } else {
                    None
                }
            },
            None => None,
        }
    } else {
        None
    }
}

/// Every numeric token that has been collected is a well-formed number
/// token, which is what lets its value be narrowed later.
pub open spec fn nums_wf(nums: Seq<Option<String>>) -> bool {
    forall|k2: int|
        0 <= k2 < nums.len() ==> (#[trigger] nums[k2] matches Some(tk)
            ==> crate::numtok::wf_number_token(tk@))
}

/// The parser's working state for the document fields.
pub struct DocFields {
    pub version: Option<String>,
    pub serial: Option<String>,
    pub nums: Vec<Option<String>>,
}

/// The field state a `DocFields` stands for.
pub open spec fn fields_view(f: DocFields) -> DocFieldsSpec {
    DocFieldsSpec {
        version: f.version.deep_view(),
        serial: f.serial.deep_view(),
        nums: f.nums.deep_view(),
    }
}

fn set_num(nums: &mut Vec<Option<String>>, k: usize, tok: String)
    requires
        k < old(nums)@.len(),
    ensures
        final(nums)@.len() == old(nums)@.len(),
        final(nums)@ == old(nums)@.update(k as int, Some(tok)),
        final(nums).deep_view() == old(nums).deep_view().update(k as int, Some(tok@)),
{
    let ghost t = tok@;
    *vstd::std_specs::vec::vec_index_mut(nums, k) = Some(tok);
    proof {
        assert(nums.deep_view() =~= old(nums).deep_view().update(k as int, Some(t)));
    }
}

fn members(s: &str, n: usize, i: usize, f: DocFields) -> (r: Option<(DocFields, usize)>)
    requires
        n == s@.len(),
        i <= n,
        f.nums@.len() == 12,
        nums_wf(f.nums@),
    ensures
        match r {
            Some(p) => members_s(s@, i as int, fields_view(f)) == Some(
                (fields_view(p.0), p.1 as int),
            ) && i < p.1 <= n && p.0.nums@.len() == 12 && nums_wf(p.0.nums@),
            None => members_s(s@, i as int, fields_view(f)) is None,
        },
    decreases n - i,
{
    let j0 = skip_ws(s, n, i);
    match parse_string(s, n, j0) {
        None => None,
        Some((key, j1)) => {
            let j2 = skip_ws(s, n, j1);
            if j2 < n && s.get_char(j2) == ':' {
                let j3 = skip_ws(s, n, j2 + 1);
                let step: Option<(DocFields, usize)> = if str_eq(key.as_str(), "configVersion") {
                    if f.version.is_some() {
                        None
                    } else {
                        match parse_string(s, n, j3) {
                            Some((v, j4)) => Some(
                                (
                                    DocFields {
                                        version: Some(v),
                                        serial: f.serial,
                                        nums: f.nums,
                                    },
                                    j4,
                                ),
                            ),
                            None => None,
                        }
                    }
                } else if str_eq(key.as_str(), "serial") {
                    if f.serial.is_some() {
                        None
                    } else {
                        match parse_string(s, n, j3) {
                            Some((v, j4)) => Some(
                                (
                                    DocFields {
                                        version: f.version,
                                        serial: Some(v),
                                        nums: f.nums,
                                    },
                                    j4,
                                ),
                            ),
                            None => None,
                        }
                    }
                } else {
                    match num_key(key.as_str()) {
                        Some(k) => {
                            if f.nums[k].is_some() {
                                None
                            } else {
                                match vmap(s, n, j3) {
                                    Some((t, j4)) => {
                                        let mut f2 = f;
                                        set_num(&mut f2.nums, k, t);
                                        Some((f2, j4))
                                    },
                                    None => None,
                                }
                            }
                        },
                        None => {
                            match skip_value(s, n, j3) {
                                Some(j4) => Some((f, j4)),
                                None => None,
                            }
                        },
                    }
                };
                match step {
                    None => None,
                    Some((f2, j4)) => {
                        let j5 = skip_ws(s, n, j4);
                        if j5 < n && s.get_char(j5) == ',' {
                            members(s, n, j5 + 1, f2)
                        } else if j5 < n && s.get_char(j5) == '}' {
                            Some((f2, j5 + 1))
                        } else {
                            None
                        }
                    },
                }
            } else {
                None
            }
        },
    }
}

/// Parses a whole configuration document into its field state, or
/// nothing when the text does not match the document grammar.
pub fn parse_doc(s: &str) -> (r: Option<DocFields>)
    ensures
        match r {
            Some(f) => parse_doc_s(s@) == Some(fields_view(f)) && f.nums@.len() == 12 && nums_wf(
                f.nums@,
            ),
            None => parse_doc_s(s@) is None,
        },
{
    let n = s.unicode_len();
    let i0 = skip_ws(s, n, 0);
    if i0 < n && s.get_char(i0) == '{' {
        let mut nums: Vec<Option<String>> = Vec::new();
        let mut k: usize = 0;
        while k < 12
            invariant
                k <= 12,
                nums@.len() == k,
                forall|m: int| 0 <= m < k ==> nums@[m] is None,
            decreases 12 - k,
        {
            nums.push(None);
            k += 1;
        }
        let f = DocFields { version: None, serial: None, nums };
        proof {
            assert(fields_view(f).nums =~= empty_fields().nums);
            assert(fields_view(f) == empty_fields());
        }
        match members(s, n, i0 + 1, f) {
            Some((f2, j)) => {
                let j2 = skip_ws(s, n, j);
                if j2 == n {
                    Some(f2)
                } else {
                    None
                }
            },
            None => None,
        }
    } else {
        None
    }
}

} // verus!
