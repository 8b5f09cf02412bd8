//! Low-level wire-text parsing: a cursor-style recursive-descent reader for
//! the line-oriented JSON objects of the protocol. Each routine takes the
//! line's characters and a position, and returns what it read together with
//! the position after it.

use vstd::prelude::*;
use vstd::utf8::char_u32_cast;

use crate::codec::DecodeError;
use crate::text::{chars_to_string, dec_text, digits_val, hex_of, is_digit, is_ws,
    lemma_dec_text_shape, lemma_digit_scalar, lemma_digits_val_prefix, lemma_esc_step,
    lemma_esc_uni, lemma_quoted_probe, lemma_scalar_is_digit, lemma_text_at_index, num_cont,
    escape_text, quoted, text_at, ws_char};

verus! {

/// One member value of a wire object, as far as the protocol cares: the
/// shapes the recognized payloads use are kept exactly, and every other
/// well-formed value (negative, fractional or oversized numbers, nested
/// objects, mixed arrays) is read over and kept only as `Other`.
pub enum JVal {
    Null,
    Bool(bool),
    Num(u64),
    SStr(String),
    StrList(Vec<String>),
    Other,
}

/// Mathematical view of a `JVal`.
pub enum JValV {
    Null,
    Bool(bool),
    Num(u64),
    SStr(Seq<char>),
    StrList(Seq<Seq<char>>),
    Other,
}

impl View for JVal {
    type V = JValV;

    open spec fn view(&self) -> JValV {
        match self {
            JVal::Null => JValV::Null,
            JVal::Bool(b) => JValV::Bool(*b),
            JVal::Num(n) => JValV::Num(*n),
            JVal::SStr(s) => JValV::SStr(s@),
            JVal::StrList(items) => JValV::StrList(items.deep_view()),
            JVal::Other => JValV::Other,
        }
    }
}

/// The position of the first non-whitespace character at or after `i`.
pub(crate) fn skip_ws(s: &Vec<char>, i: usize) -> (j: usize)
    requires
        i <= s@.len(),
    ensures
        i <= j <= s@.len(),
        forall|k: int| i <= k < j ==> is_ws(#[trigger] s@[k]),
        j < s@.len() ==> !is_ws(s@[j as int]),
{
    let mut j: usize = i;
    while j < s.len()
        invariant
            i <= j <= s@.len(),
            forall|k: int| i <= k < j ==> is_ws(#[trigger] s@[k]),
        decreases s@.len() - j,
    {
        if !ws_char(s[j]) {
            return j;
        }
        j = j + 1;
    }
    j
}

/// The value of one hexadecimal digit, upper or lower case.
pub(crate) fn hex_val(c: char) -> (r: Option<u32>)
    ensures
        r matches Some(v) ==> v < 16,
        forall|d: nat| d < 16 && c == hex_of(d) ==> r == Some(d as u32),
{
    let d = c as u32;
    if 48 <= d && d <= 57 {
        Some(d - 48)
    } else if 97 <= d && d <= 102 {
        Some(d - 87)
    } else if 65 <= d && d <= 70 {
        Some(d - 55)
    } else {
        None
    }
}

/// Reads four hexadecimal digits at `k`.
pub(crate) fn hex4(s: &Vec<char>, k: usize) -> (r: Result<u32, DecodeError>)
    requires
        k + 4 <= s@.len(),
    ensures
        r matches Ok(v) ==> v < 0x10000,
        forall|a: nat, b: nat, c: nat, d: nat|
            a < 16 && b < 16 && c < 16 && d < 16 && s@[k as int] == #[trigger] hex_of(a) && s@[k
                + 1] == #[trigger] hex_of(b) && s@[k + 2] == #[trigger] hex_of(c) && s@[k + 3]
                == #[trigger] hex_of(d) ==> r == Ok::<u32, DecodeError>(
                (a * 4096 + b * 256 + c * 16 + d) as u32,
            ),
{
    let n = s.len();
    proof {
        assert(k + 4 <= n);
    }
    let d0 = match hex_val(s[k]) {
        Some(v) => v,
        None => {
            return Err(DecodeError::Malformed);
        },
    };
    let d1 = match hex_val(s[k + 1]) {
        Some(v) => v,
        None => {
            return Err(DecodeError::Malformed);
        },
    };
    let d2 = match hex_val(s[k + 2]) {
        Some(v) => v,
        None => {
            return Err(DecodeError::Malformed);
        },
    };
    let d3 = match hex_val(s[k + 3]) {
        Some(v) => v,
        None => {
            return Err(DecodeError::Malformed);
        },
    };
    Ok(((d0 * 16 + d1) * 16 + d2) * 16 + d3)
}

/// Reads a quoted string starting at `i`, resolving every escape, and
/// returns it with the position after the closing quote. The quoted wire
/// form of a text is always read back as exactly that text.
#[verifier::rlimit(100)]
pub(crate) fn parse_string_at(s: &Vec<char>, i: usize) -> (r: Result<(String, usize), DecodeError>)
    requires
        i <= s@.len(),
    ensures
        r matches Ok(p) ==> i < p.1 <= s@.len(),
        forall|t: Seq<char>| #[trigger] text_at(s@, i as int, quoted(t)) ==> (r matches Ok(p)
            && p.0@ == t && p.1 == i + quoted(t).len()),
{
    if i >= s.len() || s[i] != '"' {
        proof {
            assert forall|t: Seq<char>| #[trigger] text_at(s@, i as int, quoted(t)) implies
                false by {
                lemma_text_at_index(s@, i as int, quoted(t), 0);
            }
        }
        return Err(DecodeError::Malformed);
    }
    let mut buf: Vec<char> = Vec::new();
    let mut j: usize = i + 1;
    proof {
        assert forall|t: Seq<char>| #[trigger] text_at(s@, i as int, quoted(t)) implies buf@.len()
            <= t.len() && buf@ == t.subrange(0, buf@.len() as int) && j == i + 1 + escape_text(
            t.subrange(0, buf@.len() as int),
        ).len() by {
            assert(t.subrange(0, 0) =~= Seq::<char>::empty());
            assert(buf@ =~= t.subrange(0, 0));
            assert(escape_text(Seq::<char>::empty()) =~= Seq::<char>::empty());
        }
    }
    while j < s.len()
        invariant
            i < j <= s@.len(),
            forall|t: Seq<char>| #[trigger] text_at(s@, i as int, quoted(t)) ==> buf@.len()
                <= t.len() && buf@ == t.subrange(0, buf@.len() as int) && j == i + 1
                + escape_text(t.subrange(0, buf@.len() as int)).len(),
        decreases s@.len() - j,
    {
        let ghost buf0 = buf@;
        let ghost j0 = j as int;
        let c = s[j];
        if c == '"' {
            let res = chars_to_string(&buf);
            proof {
                assert forall|t: Seq<char>| #[trigger] text_at(s@, i as int, quoted(t)) implies
                    res@ == t && j + 1 == i + quoted(t).len() by {
                    let m = buf0.len() as int;
                    lemma_quoted_probe(s@, i as int, t, m);
                    if m < t.len() {
                        lemma_esc_step(s@, i as int, t, m, j0);
                        assert(false);
                    }
                    assert(t.subrange(0, m) =~= t);
                }
            }
            return Ok((res, j + 1));
        } else if c == '\\' {
            if s.len() - j < 2 {
                proof {
                    assert forall|t: Seq<char>| #[trigger] text_at(s@, i as int, quoted(t))
                        implies false by {
                        let m = buf0.len() as int;
                        lemma_quoted_probe(s@, i as int, t, m);
                        if m < t.len() {
                            lemma_esc_step(s@, i as int, t, m, j0);
                        }
                    }
                }
                return Err(DecodeError::Malformed);
            }
            let e = s[j + 1];
            if e == 'u' {
                if s.len() - j < 6 {
                    proof {
                        assert forall|t: Seq<char>| #[trigger] text_at(s@, i as int, quoted(t))
                            implies false by {
                            let m = buf0.len() as int;
                            lemma_quoted_probe(s@, i as int, t, m);
                            if m < t.len() {
                                lemma_esc_step(s@, i as int, t, m, j0);
                                lemma_esc_uni(s@, i as int, t, m, j0);
                            }
                        }
                    }
                    return Err(DecodeError::Malformed);
                }
                let h = match hex4(s, j + 2) {
                    Ok(v) => v,
                    Err(er) => {
                        proof {
                            assert forall|t: Seq<char>| #[trigger] text_at(s@, i as int, quoted(t))
                                implies false by {
                                let m = buf0.len() as int;
                                lemma_quoted_probe(s@, i as int, t, m);
                                if m < t.len() {
                                    lemma_esc_step(s@, i as int, t, m, j0);
                                    lemma_esc_uni(s@, i as int, t, m, j0);
                                }
                            }
                        }
                        return Err(er);
                    },
                };
                proof {
                    assert forall|t: Seq<char>| #[trigger] text_at(s@, i as int, quoted(t))
                        implies buf0.len() < t.len() && h == t[buf0.len() as int] as u32 && h
                        < 0x20 by {
                        let m = buf0.len() as int;
                        lemma_quoted_probe(s@, i as int, t, m);
                        if m == t.len() {
                            assert(false);
                        }
                        lemma_esc_step(s@, i as int, t, m, j0);
                        lemma_esc_uni(s@, i as int, t, m, j0);
                    }
                }
                if 0xD800 <= h && h < 0xDC00 {
                    // a high surrogate must pair with a following low one;
                    // the canonical encoder never writes one
                    if s.len() - j < 12 {
                        return Err(DecodeError::Malformed);
                    }
                    if s[j + 6] != '\\' || s[j + 7] != 'u' {
                        return Err(DecodeError::Malformed);
                    }
                    let l = match hex4(s, j + 8) {
                        Ok(v) => v,
                        Err(er) => {
                            return Err(er);
                        },
                    };
                    if !(0xDC00 <= l && l < 0xE000) {
                        return Err(DecodeError::Malformed);
                    }
                    let code = 0x10000 + (h - 0xD800) * 0x400 + (l - 0xDC00);
                    match char::from_u32(code) {
                        Some(c2) => buf.push(c2),
                        None => {
                            return Err(DecodeError::Malformed);
                        },
                    }
                    j = j + 12;
                } else if 0xDC00 <= h && h < 0xE000 {
                    return Err(DecodeError::Malformed);
                } else {
                    match char::from_u32(h) {
                        Some(c2) => buf.push(c2),
                        None => {
                            return Err(DecodeError::Malformed);
                        },
                    }
                    j = j + 6;
                    proof {
                        assert forall|t: Seq<char>| #[trigger] text_at(s@, i as int, quoted(t))
                            implies buf@.len() <= t.len() && buf@ == t.subrange(
                            0,
                            buf@.len() as int,
                        ) && j == i + 1 + escape_text(t.subrange(0, buf@.len() as int)).len() by {
                            let m = buf0.len() as int;
                            lemma_esc_step(s@, i as int, t, m, j0);
                            lemma_esc_uni(s@, i as int, t, m, j0);
                            assert(buf@.last() as u32 == t[m] as u32);
                            char_u32_cast(buf@.last(), buf@.last() as u32);
                            char_u32_cast(t[m], t[m] as u32);
                            assert(buf@.last() == t[m]);
                            assert(buf@ =~= t.subrange(0, m + 1));
                        }
                    }
                }
            } else {
                if e == '"' {
                    buf.push('"');
                } else if e == '\\' {
                    buf.push('\\');
                } else if e == '/' {
                    buf.push('/');
                } else if e == 'n' {
                    buf.push('\n');
                } else if e == 'r' {
                    buf.push('\r');
                } else if e == 't' {
                    buf.push('\t');
                } else if e == 'b' {
                    buf.push('\u{8}');
                } else if e == 'f' {
                    buf.push('\u{c}');
                } else {
                    proof {
                        assert forall|t: Seq<char>| #[trigger] text_at(s@, i as int, quoted(t))
                            implies false by {
                            let m = buf0.len() as int;
                            lemma_quoted_probe(s@, i as int, t, m);
                            if m < t.len() {
                                lemma_esc_step(s@, i as int, t, m, j0);
                            }
                        }
                    }
                    return Err(DecodeError::Malformed);
                }
                j = j + 2;
                proof {
                    assert forall|t: Seq<char>| #[trigger] text_at(s@, i as int, quoted(t))
                        implies buf@.len() <= t.len() && buf@ == t.subrange(0, buf@.len() as int)
                        && j == i + 1 + escape_text(t.subrange(0, buf@.len() as int)).len() by {
                        let m = buf0.len() as int;
                        lemma_quoted_probe(s@, i as int, t, m);
                        if m == t.len() {
                            assert(false);
                        }
                        lemma_esc_step(s@, i as int, t, m, j0);
                        assert(buf@ =~= t.subrange(0, m + 1));
                    }
                }
            }
        } else {
            buf.push(c);
            j = j + 1;
            proof {
                assert forall|t: Seq<char>| #[trigger] text_at(s@, i as int, quoted(t)) implies
                    buf@.len() <= t.len() && buf@ == t.subrange(0, buf@.len() as int) && j == i + 1
                    + escape_text(t.subrange(0, buf@.len() as int)).len() by {
                    let m = buf0.len() as int;
                    lemma_quoted_probe(s@, i as int, t, m);
                    if m == t.len() {
                        assert(false);
                    }
                    lemma_esc_step(s@, i as int, t, m, j0);
                    assert(buf@ =~= t.subrange(0, m + 1));
                }
            }
        }
    }
    proof {
        assert forall|t: Seq<char>| #[trigger] text_at(s@, i as int, quoted(t)) implies false by {
            let m = buf@.len() as int;
            lemma_quoted_probe(s@, i as int, t, m);
            if m < t.len() {
                lemma_esc_step(s@, i as int, t, m, j as int);
            }
        }
    }
    Err(DecodeError::Malformed)
}

/// Reads over a quoted string starting at `i` without building it.
pub(crate) fn scan_string_text(s: &Vec<char>, i: usize) -> (r: Result<usize, DecodeError>)
    requires
        i <= s@.len(),
    ensures
        r matches Ok(j) ==> i < j <= s@.len(),
{
    if i >= s.len() || s[i] != '"' {
        return Err(DecodeError::Malformed);
    }
    let mut j: usize = i + 1;
    while j < s.len()
        invariant
            i < j <= s@.len(),
        decreases s@.len() - j,
    {
        let c = s[j];
        if c == '"' {
            return Ok(j + 1);
        }
        if c == '\\' {
            if s.len() - j < 2 {
                return Err(DecodeError::Malformed);
            }
            j = j + 2;
        } else {
            j = j + 1;
        }
    }
    Err(DecodeError::Malformed)
}

/// Reads over any well-formed value starting at `i`: a string, an object or
/// array, or an unquoted primitive. A top-level primitive must be a
/// literal or a number; inside a nested object or array only bracket
/// nesting and string syntax are checked.
pub(crate) fn skip_value_at(s: &Vec<char>, i: usize) -> (r: Result<usize, DecodeError>)
    requires
        i <= s@.len(),
    ensures
        r matches Ok(j) ==> i < j <= s@.len(),
{
    if i >= s.len() {
        return Err(DecodeError::Malformed);
    }
    let c = s[i];
    if c == '"' {
        return scan_string_text(s, i);
    }
    if c == '{' || c == '[' {
        let mut depth: usize = 1;
        let mut j: usize = i + 1;
        while depth > 0
            invariant
                i < j <= s@.len(),
                depth <= j - i,
            decreases s@.len() - j,
        {
            if j >= s.len() {
                return Err(DecodeError::Malformed);
            }
            let c2 = s[j];
            if c2 == '"' {
                match scan_string_text(s, j) {
                    Ok(nj) => {
                        j = nj;
                    },
                    Err(er) => {
                        return Err(er);
                    },
                }
            } else {
                if c2 == '{' || c2 == '[' {
                    depth = depth + 1;
                } else if c2 == '}' || c2 == ']' {
                    depth = depth - 1;
                }
                j = j + 1;
            }
        }
        return Ok(j);
    }
    if c == 't' {
        if s.len() - i >= 4 && s[i + 1] == 'r' && s[i + 2] == 'u' && s[i + 3] == 'e' {
            return Ok(i + 4);
        }
        return Err(DecodeError::Malformed);
    }
    if c == 'f' {
        if s.len() - i >= 5 && s[i + 1] == 'a' && s[i + 2] == 'l' && s[i + 3] == 's' && s[i + 4]
            == 'e' {
            return Ok(i + 5);
        }
        return Err(DecodeError::Malformed);
    }
    if c == 'n' {
        if s.len() - i >= 4 && s[i + 1] == 'u' && s[i + 2] == 'l' && s[i + 3] == 'l' {
            return Ok(i + 4);
        }
        return Err(DecodeError::Malformed);
    }
    if c == '-' || ('0' <= c && c <= '9') {
        match parse_number_at(s, i) {
            Ok(p) => {
                return Ok(p.1);
            },
            Err(e) => {
                return Err(e);
            },
        }
    }
    Err(DecodeError::Malformed)
}

/// A number's canonical decimal text stands at `i`, followed by nothing
/// that could extend it.
pub open spec fn num_at(s: Seq<char>, i: int, n: u64) -> bool {
    &&& text_at(s, i, dec_text(n as nat))
    &&& (i + dec_text(n as nat).len() == s.len() || !num_cont(s[i + dec_text(n as nat).len()]))
}

/// Reads a number starting at `i`. A plain unsigned integer that fits in 64
/// bits is kept exactly; any other well-formed number is read over and kept
/// as `Other`. A number's canonical decimal text is always read back as
/// exactly that number.
pub(crate) fn parse_number_at(s: &Vec<char>, i: usize) -> (r: Result<(JVal, usize), DecodeError>)
    requires
        i <= s@.len(),
    ensures
        r matches Ok(p) ==> i < p.1 <= s@.len(),
        forall|n: u64| #[trigger] num_at(s@, i as int, n) ==> (r matches Ok(p) && p.0
            == JVal::Num(n) && p.1 == i + dec_text(n as nat).len()),
{
    let mut j: usize = i;
    let mut other = false;
    if j < s.len() && s[j] == '-' {
        other = true;
        j = j + 1;
    }
    proof {
        assert forall|n: u64| #[trigger] num_at(s@, i as int, n) implies j == i && !other by {
            lemma_dec_text_shape(n as nat);
            lemma_text_at_index(s@, i as int, dec_text(n as nat), 0);
        }
    }
    if j >= s.len() {
        proof {
            assert forall|n: u64| #[trigger] num_at(s@, i as int, n) implies false by {
                lemma_dec_text_shape(n as nat);
            }
        }
        return Err(DecodeError::Malformed);
    }
    let first = s[j] as u32;
    if first < 48 || first > 57 {
        proof {
            assert forall|n: u64| #[trigger] num_at(s@, i as int, n) implies false by {
                lemma_dec_text_shape(n as nat);
                lemma_text_at_index(s@, i as int, dec_text(n as nat), 0);
                lemma_digit_scalar(dec_text(n as nat)[0]);
            }
        }
        return Err(DecodeError::Malformed);
    }
    if first == 48 && j + 1 < s.len() && '0' <= s[j + 1] && s[j + 1] <= '9' {
        // a number does not begin with a superfluous zero
        proof {
            assert forall|n: u64| #[trigger] num_at(s@, i as int, n) implies false by {
                lemma_dec_text_shape(n as nat);
                lemma_text_at_index(s@, i as int, dec_text(n as nat), 0);
                lemma_digit_scalar(dec_text(n as nat)[0]);
            }
        }
        return Err(DecodeError::Malformed);
    }
    let mut acc: u64 = (first - 48) as u64;
    j = j + 1;
    proof {
        assert forall|n: u64| #[trigger] num_at(s@, i as int, n) implies 1 <= j - i <= dec_text(
            n as nat,
        ).len() && acc as nat == digits_val(dec_text(n as nat).subrange(0, j - i)) by {
            lemma_dec_text_shape(n as nat);
            lemma_text_at_index(s@, i as int, dec_text(n as nat), 0);
            lemma_digit_scalar(dec_text(n as nat)[0]);
            let pre = dec_text(n as nat).subrange(0, 1);
            assert(pre.drop_last() =~= Seq::<char>::empty());
            assert(digits_val(Seq::<char>::empty()) == 0);
            assert(pre.last() == dec_text(n as nat)[0]);
        }
    }
    while j < s.len()
        invariant
            i < j <= s@.len(),
            forall|n: u64| #[trigger] num_at(s@, i as int, n) ==> !other && 1 <= j - i <= dec_text(
                n as nat,
            ).len() && acc as nat == digits_val(dec_text(n as nat).subrange(0, j - i)),
        ensures
            i < j <= s@.len(),
            forall|n: u64| #[trigger] num_at(s@, i as int, n) ==> !other && 1 <= j - i <= dec_text(
                n as nat,
            ).len() && acc as nat == digits_val(dec_text(n as nat).subrange(0, j - i)),
            j == s@.len() || (s@[j as int] as u32) < 48 || (s@[j as int] as u32) > 57,
        decreases s@.len() - j,
    {
        let cu = s[j] as u32;
        if cu < 48 || cu > 57 {
            break;
        }
        let d = (cu - 48) as u64;
        let ghost acc0 = acc;
        let ghost oth0 = other;
        if acc > (u64::MAX - d) / 10 {
            other = true;
        } else {
            acc = acc * 10 + d;
        }
        j = j + 1;
        proof {
            assert forall|n: u64| #[trigger] num_at(s@, i as int, n) implies !other && 1 <= j - i
                <= dec_text(n as nat).len() && acc as nat == digits_val(
                dec_text(n as nat).subrange(0, j - i),
            ) by {
                let dt = dec_text(n as nat);
                lemma_dec_text_shape(n as nat);
                let m = j - i - 1;
                if m == dt.len() {
                    assert(!num_cont(s@[i + dt.len()]));
                    lemma_scalar_is_digit(s@[i + dt.len()]);
                    assert(false);
                } else {
                    lemma_text_at_index(s@, i as int, dt, m);
                    lemma_digit_scalar(dt[m]);
                    let pre1 = dt.subrange(0, m + 1);
                    assert(pre1.drop_last() =~= dt.subrange(0, m));
                    assert(pre1.last() == dt[m]);
                    lemma_digits_val_prefix(dt, m + 1);
                    assert(digits_val(pre1) == acc0 as nat * 10 + d);
                    assert(acc0 as nat * 10 + d <= n as nat);
                    assert(acc0 * 10 + d <= u64::MAX) by {
                        assert(acc0 as nat * 10 + d <= n as nat);
                    }
                    assert(acc0 <= (u64::MAX - d) / 10);
                }
            }
        }
    }
    proof {
        assert forall|n: u64| #[trigger] num_at(s@, i as int, n) implies !other && j == i
            + dec_text(n as nat).len() && acc == n by {
            let dt = dec_text(n as nat);
            lemma_dec_text_shape(n as nat);
            if j - i < dt.len() {
                lemma_text_at_index(s@, i as int, dt, j - i);
                lemma_digit_scalar(dt[(j - i) as int]);
                assert(false);
            }
            assert(dt.subrange(0, dt.len() as int) =~= dt);
        }
    }
    let ghost jnum = j;
    if j < s.len() && s[j] == '.' {
        other = true;
        j = j + 1;
        let mut seen = false;
        while j < s.len()
            invariant
                i < j <= s@.len(),
            decreases s@.len() - j,
        {
            let cu = s[j] as u32;
            if cu < 48 || cu > 57 {
                break;
            }
            seen = true;
            j = j + 1;
        }
        if !seen {
            return Err(DecodeError::Malformed);
        }
    }
    if j < s.len() && (s[j] == 'e' || s[j] == 'E') {
        other = true;
        j = j + 1;
        if j < s.len() && (s[j] == '+' || s[j] == '-') {
            j = j + 1;
        }
        let mut seen = false;
        while j < s.len()
            invariant
                i < j <= s@.len(),
            decreases s@.len() - j,
        {
            let cu = s[j] as u32;
            if cu < 48 || cu > 57 {
                break;
            }
            seen = true;
            j = j + 1;
        }
        if !seen {
            return Err(DecodeError::Malformed);
        }
    }
    proof {
        assert forall|n: u64| #[trigger] num_at(s@, i as int, n) implies !other && j == i
            + dec_text(n as nat).len() && acc == n by {
            assert(jnum == i + dec_text(n as nat).len());
        }
    }
    if other {
        Ok((JVal::Other, j))
    } else {
        Ok((JVal::Num(acc), j))
    }
}

/// Reads one member value starting at `i`: a string, a number, a literal, an
/// array (kept exactly when all its items are strings), or a nested object
/// (read over and kept as `Other`).
pub(crate) fn parse_value_at(s: &Vec<char>, i: usize) -> (r: Result<(JVal, usize), DecodeError>)
    requires
        i <= s@.len(),
    ensures
        r matches Ok(p) ==> i < p.1 <= s@.len(),
{
    if i >= s.len() {
        return Err(DecodeError::Malformed);
    }
    let c = s[i];
    if c == '"' {
        match parse_string_at(s, i) {
            Ok((st, j)) => Ok((JVal::SStr(st), j)),
            Err(er) => Err(er),
        }
    } else if c == 't' {
        if s.len() - i >= 4 && s[i + 1] == 'r' && s[i + 2] == 'u' && s[i + 3] == 'e' {
            Ok((JVal::Bool(true), i + 4))
        } else {
            Err(DecodeError::Malformed)
        }
    } else if c == 'f' {
        if s.len() - i >= 5 && s[i + 1] == 'a' && s[i + 2] == 'l' && s[i + 3] == 's' && s[i + 4]
            == 'e' {
            Ok((JVal::Bool(false), i + 5))
        } else {
            Err(DecodeError::Malformed)
        }
    } else if c == 'n' {
        if s.len() - i >= 4 && s[i + 1] == 'u' && s[i + 2] == 'l' && s[i + 3] == 'l' {
            Ok((JVal::Null, i + 4))
        } else {
            Err(DecodeError::Malformed)
        }
    } else if c == '-' || ('0' <= c && c <= '9') {
        parse_number_at(s, i)
    } else if c == '[' {
        let mut items: Vec<String> = Vec::new();
        let mut other = false;
        let mut j: usize = skip_ws(s, i + 1);
        if j < s.len() && s[j] == ']' {
            return Ok((JVal::StrList(items), j + 1));
        }
        loop
            invariant
                i < j <= s@.len(),
            decreases s@.len() - j,
        {
            if j >= s.len() {
                return Err(DecodeError::Malformed);
            }
            if s[j] == '"' {
                match parse_string_at(s, j) {
                    Ok((st, nj)) => {
                        items.push(st);
                        j = nj;
                    },
                    Err(er) => {
                        return Err(er);
                    },
                }
            } else {
                match skip_value_at(s, j) {
                    Ok(nj) => {
                        other = true;
                        j = nj;
                    },
                    Err(er) => {
                        return Err(er);
                    },
                }
            }
            j = skip_ws(s, j);
            if j >= s.len() {
                return Err(DecodeError::Malformed);
            }
            if s[j] == ']' {
                if other {
                    return Ok((JVal::Other, j + 1));
                }
                return Ok((JVal::StrList(items), j + 1));
            }
            if s[j] != ',' {
                return Err(DecodeError::Malformed);
            }
            j = skip_ws(s, j + 1);
        }
    } else if c == '{' {
        match skip_value_at(s, i) {
            Ok(j) => Ok((JVal::Other, j)),
            Err(er) => Err(er),
        }
    } else {
        Err(DecodeError::Malformed)
    }
}

/// Reads the exact characters of `lit` at `i`: the position after them when
/// they stand there, nothing otherwise.
pub(crate) fn expect_lit(s: &Vec<char>, i: usize, lit: &str) -> (r: Option<usize>)
    requires
        i <= s@.len(),
    ensures
        r matches Some(j) ==> j == i + lit@.len() && text_at(s@, i as int, lit@),
        r is None ==> !text_at(s@, i as int, lit@),
{
    let n = lit.unicode_len();
    let sn = s.len();
    if sn - i < n {
        return None;
    }
    proof {
        assert(i + n <= sn);
    }
    let mut k: usize = 0;
    while k < n
        invariant
            k <= n,
            n == lit@.len(),
            sn == s@.len(),
            i + n <= sn,
            forall|q: int| 0 <= q < k ==> s@[i + q] == lit@[q],
        decreases n - k,
    {
        if s[i + k] != lit.get_char(k) {
            proof {
                if text_at(s@, i as int, lit@) {
                    lemma_text_at_index(s@, i as int, lit@, k as int);
                    assert(false);
                }
            }
            return None;
        }
        k = k + 1;
    }
    proof {
        assert(s@.subrange(i as int, i + n) =~= lit@);
    }
    Some(i + n)
}

} // verus!
