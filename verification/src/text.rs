//! Character-level text helpers shared by the wire codec: turning strings
//! into character vectors and back, printing decimal numbers, and escaping
//! text for quoted output.

use vstd::prelude::*;

verus! {

/// The characters that count as insignificant whitespace on the wire.
pub open spec fn is_ws(c: char) -> bool {
    c == ' ' || c == '\n' || c == '\r' || c == '\t'
}

/// Exec mirror of `is_ws`.
pub fn ws_char(c: char) -> (r: bool)
    ensures
        r == is_ws(c),
{
    c == ' ' || c == '\n' || c == '\r' || c == '\t'
}

/// The character printed for one decimal digit.
pub open spec fn digit_of(d: nat) -> char {
    if d == 0 {
        '0'
    } else if d == 1 {
        '1'
    } else if d == 2 {
        '2'
    } else if d == 3 {
        '3'
    } else if d == 4 {
        '4'
    } else if d == 5 {
        '5'
    } else if d == 6 {
        '6'
    } else if d == 7 {
        '7'
    } else if d == 8 {
        '8'
    } else {
        '9'
    }
}

/// The character printed for one hexadecimal digit, lower case.
pub open spec fn hex_of(d: nat) -> char {
    if d < 10 {
        digit_of(d)
    } else if d == 10 {
        'a'
    } else if d == 11 {
        'b'
    } else if d == 12 {
        'c'
    } else if d == 13 {
        'd'
    } else if d == 14 {
        'e'
    } else {
        'f'
    }
}

/// The decimal text of an unsigned number, most significant digit first.
pub open spec fn dec_text(n: nat) -> Seq<char>
    decreases n,
{
    if n < 10 {
        seq![digit_of(n)]
    } else {
        dec_text(n / 10).push(digit_of(n % 10))
    }
}

/// The escaped form of one character inside a quoted wire string: quote and
/// backslash get a backslash, the common control characters their short
/// escapes, the remaining control characters the `\u00XX` form, and every
/// other character stands for itself.
pub open spec fn esc_char(c: char) -> Seq<char> {
    if c == '"' {
        seq!['\\', '"']
    } else if c == '\\' {
        seq!['\\', '\\']
    } else if c == '\n' {
        seq!['\\', 'n']
    } else if c == '\r' {
        seq!['\\', 'r']
    } else if c == '\t' {
        seq!['\\', 't']
    } else if c == '\u{8}' {
        seq!['\\', 'b']
    } else if c == '\u{c}' {
        seq!['\\', 'f']
    } else if (c as u32) < 0x20 {
        seq!['\\', 'u', '0', '0', hex_of((c as u32 / 16) as nat), hex_of((c as u32 % 16) as nat)]
    } else {
        seq![c]
    }
}

/// The escaped form of a whole text.
pub open spec fn escape_text(s: Seq<char>) -> Seq<char>
    decreases s.len(),
{
    if s.len() == 0 {
        Seq::empty()
    } else {
        escape_text(s.drop_last()) + esc_char(s.last())
    }
}

/// The quoted wire form of a text: the escaped text between two quotes.
pub open spec fn quoted(s: Seq<char>) -> Seq<char> {
    seq!['"'] + escape_text(s) + seq!['"']
}

/// The characters of a string, in order.
pub fn str_chars(s: &str) -> (r: Vec<char>)
    ensures
        r@ == s@,
{
    let n = s.unicode_len();
    let mut r: Vec<char> = Vec::new();
    let mut i: usize = 0;
    while i < n
        invariant
            i <= n,
            n == s@.len(),
            r@ == s@.subrange(0, i as int),
        decreases n - i,
    {
        r.push(s.get_char(i));
        i = i + 1;
        proof {
            assert(s@.subrange(0, i as int) =~= s@.subrange(0, i - 1).push(s@[i - 1]));
        }
    }
    proof {
        assert(s@.subrange(0, n as int) =~= s@);
    }
    r
}

/// Relies on `char::from_u32`: the conversion succeeds exactly on scalar
/// values (not a surrogate, at most the largest character), and a
/// successful conversion returns the character with exactly the given
/// scalar value.
pub assume_specification[ char::from_u32 ](v: u32) -> (r: Option<char>)
    ensures
        r matches Some(c) ==> c as u32 == v,
        (v < 0xD800 || (0xE000 <= v && v <= 0x10FFFF)) <==> r is Some,
;

/// Relies on `String: FromIterator<char>`: collecting an iterator of
/// characters yields the string of exactly those characters in order.
#[verifier::external_body]
pub fn chars_to_string(v: &Vec<char>) -> (r: String)
    ensures
        r@ == v@,
{
    v.iter().collect()
}

/// Appends the characters of `s` to `out`.
pub fn push_str(out: &mut Vec<char>, s: &str)
    ensures
        final(out)@ == old(out)@ + s@,
{
    let n = s.unicode_len();
    let mut i: usize = 0;
    while i < n
        invariant
            i <= n,
            n == s@.len(),
            out@ == old(out)@ + s@.subrange(0, i as int),
        decreases n - i,
    {
        out.push(s.get_char(i));
        i = i + 1;
        proof {
            assert(s@.subrange(0, i as int) =~= s@.subrange(0, i - 1).push(s@[i - 1]));
            assert(out@ =~= old(out)@ + s@.subrange(0, i as int));
        }
    }
    proof {
        assert(s@.subrange(0, n as int) =~= s@);
        assert(out@ =~= old(out)@ + s@);
    }
}

/// Exec mirror of `digit_of`.
pub fn digit_char_of(d: u64) -> (r: char)
    requires
        d < 10,
    ensures
        r == digit_of(d as nat),
{
    if d == 0 {
        '0'
    } else if d == 1 {
        '1'
    } else if d == 2 {
        '2'
    } else if d == 3 {
        '3'
    } else if d == 4 {
        '4'
    } else if d == 5 {
        '5'
    } else if d == 6 {
        '6'
    } else if d == 7 {
        '7'
    } else if d == 8 {
        '8'
    } else {
        '9'
    }
}

/// Exec mirror of `hex_of`.
pub fn hex_char_of(d: u32) -> (r: char)
    requires
        d < 16,
    ensures
        r == hex_of(d as nat),
{
    if d < 10 {
        digit_char_of(d as u64)
    } else if d == 10 {
        'a'
    } else if d == 11 {
        'b'
    } else if d == 12 {
        'c'
    } else if d == 13 {
        'd'
    } else if d == 14 {
        'e'
    } else {
        'f'
    }
}

/// Appends the decimal text of `n` to `out`.
pub fn push_u64(out: &mut Vec<char>, n: u64)
    ensures
        final(out)@ == old(out)@ + dec_text(n as nat),
    decreases n,
{
    if n >= 10 {
        push_u64(out, n / 10);
    }
    out.push(digit_char_of(n % 10));
}

/// Appends the escaped form of one character to `out`.
pub fn push_escaped_char(out: &mut Vec<char>, c: char)
    ensures
        final(out)@ == old(out)@ + esc_char(c),
{
    if c == '"' {
        out.push('\\');
        out.push('"');
    } else if c == '\\' {
        out.push('\\');
        out.push('\\');
    } else if c == '\n' {
        out.push('\\');
        out.push('n');
    } else if c == '\r' {
        out.push('\\');
        out.push('r');
    } else if c == '\t' {
        out.push('\\');
        out.push('t');
    } else if c == '\u{8}' {
        out.push('\\');
        out.push('b');
    } else if c == '\u{c}' {
        out.push('\\');
        out.push('f');
    } else if (c as u32) < 0x20 {
        out.push('\\');
        out.push('u');
        out.push('0');
        out.push('0');
        out.push(hex_char_of((c as u32) / 16));
        out.push(hex_char_of((c as u32) % 16));
    } else {
        out.push(c);
    }
}

/// Appends the quoted wire form of `s` to `out`.
pub fn push_quoted(out: &mut Vec<char>, s: &str)
    ensures
        final(out)@ == old(out)@ + quoted(s@),
{
    out.push('"');
    let ghost mid = out@;
    let n = s.unicode_len();
    let mut i: usize = 0;
    while i < n
        invariant
            i <= n,
            n == s@.len(),
            out@ == mid + escape_text(s@.subrange(0, i as int)),
        decreases n - i,
    {
        push_escaped_char(out, s.get_char(i));
        i = i + 1;
        proof {
            let t = s@.subrange(0, i as int);
            assert(t.drop_last() =~= s@.subrange(0, i - 1));
            assert(t.last() == s@[i - 1]);
            assert(out@ =~= mid + escape_text(t));
        }
    }
    out.push('"');
    proof {
        assert(s@.subrange(0, n as int) =~= s@);
        assert(out@ =~= old(out)@ + quoted(s@));
    }
}

/// The text `t` stands at position `i` of `s`.
pub open spec fn text_at(s: Seq<char>, i: int, t: Seq<char>) -> bool {
    0 <= i && i + t.len() <= s.len() && s.subrange(i, i + t.len()) == t
}

/// Each character of a text standing at `i` stands at its offset from `i`.
pub proof fn lemma_text_at_index(s: Seq<char>, i: int, t: Seq<char>, k: int)
    requires
        text_at(s, i, t),
        0 <= k < t.len(),
    ensures
        s[i + k] == t[k],
{
    assert(t[k] == s.subrange(i, i + t.len())[k]);
}

/// A decimal digit.
pub open spec fn is_digit(c: char) -> bool {
    '0' <= c && c <= '9'
}

/// The value of one decimal digit.
pub open spec fn digit_val(c: char) -> nat {
    if c == '0' {
        0
    } else if c == '1' {
        1
    } else if c == '2' {
        2
    } else if c == '3' {
        3
    } else if c == '4' {
        4
    } else if c == '5' {
        5
    } else if c == '6' {
        6
    } else if c == '7' {
        7
    } else if c == '8' {
        8
    } else {
        9
    }
}

/// The number a text of decimal digits denotes.
pub open spec fn digits_val(s: Seq<char>) -> nat
    decreases s.len(),
{
    if s.len() == 0 {
        0
    } else {
        digits_val(s.drop_last()) * 10 + digit_val(s.last())
    }
}

/// A digit prefix never denotes more than the whole text.
pub proof fn lemma_digits_val_prefix(s: Seq<char>, k: int)
    requires
        0 <= k <= s.len(),
    ensures
        digits_val(s.subrange(0, k)) <= digits_val(s),
    decreases s.len(),
{
    if k == s.len() {
        assert(s.subrange(0, k) =~= s);
    } else {
        assert(s.drop_last().subrange(0, k) =~= s.subrange(0, k));
        lemma_digits_val_prefix(s.drop_last(), k);
    }
}

/// Each digit character carries its value.
pub proof fn lemma_digit_of_val(d: nat)
    requires
        d < 10,
    ensures
        digit_val(digit_of(d)) == d,
        is_digit(digit_of(d)),
{
    if d == 0 {
    } else if d == 1 {
    } else if d == 2 {
    } else if d == 3 {
    } else if d == 4 {
    } else if d == 5 {
    } else if d == 6 {
    } else if d == 7 {
    } else if d == 8 {
    } else {
    }
}

/// The shape of a number's decimal text: all digits, denoting the number
/// itself, with no superfluous leading zero.
pub proof fn lemma_dec_text_shape(n: nat)
    ensures
        dec_text(n).len() >= 1,
        forall|k: int| 0 <= k < dec_text(n).len() ==> is_digit(#[trigger] dec_text(n)[k]),
        digits_val(dec_text(n)) == n,
        n > 0 ==> dec_text(n)[0] != '0',
        n < 10 ==> dec_text(n).len() == 1,
    decreases n,
{
    if n < 10 {
        lemma_digit_of_val(n);
        assert(dec_text(n) =~= seq![digit_of(n)]);
        assert(dec_text(n).drop_last() =~= Seq::<char>::empty());
        assert(digits_val(Seq::<char>::empty()) == 0);
        assert(digits_val(dec_text(n)) == digits_val(dec_text(n).drop_last()) * 10 + digit_val(
            dec_text(n).last(),
        ));
    } else {
        lemma_dec_text_shape(n / 10);
        lemma_digit_of_val(n % 10);
        assert(dec_text(n).drop_last() =~= dec_text(n / 10));
        assert(dec_text(n).last() == digit_of(n % 10));
        assert(dec_text(n)[0] == dec_text(n / 10)[0]);
    }
}

/// A digit's value is its distance from the scalar of `'0'`.
pub proof fn lemma_digit_scalar(c: char)
    requires
        is_digit(c),
    ensures
        48 <= c as u32 <= 57,
        digit_val(c) == (c as u32 - 48) as nat,
{
    if c == '0' {
    } else if c == '1' {
    } else if c == '2' {
    } else if c == '3' {
    } else if c == '4' {
    } else if c == '5' {
    } else if c == '6' {
    } else if c == '7' {
    } else if c == '8' {
    } else {
    }
}

/// A digit is exactly a character whose scalar lies in the digit range.
pub proof fn lemma_scalar_is_digit(c: char)
    ensures
        is_digit(c) <==> (48 <= c as u32 && c as u32 <= 57),
{
}

/// A character a number's text may continue with.
pub open spec fn num_cont(c: char) -> bool {
    is_digit(c) || c == '.' || c == 'e' || c == 'E'
}

/// Escaping one more character appends its escaped form.
pub proof fn lemma_escape_snoc(a: Seq<char>, c: char)
    ensures
        escape_text(a.push(c)) == escape_text(a) + esc_char(c),
{
    assert(a.push(c).drop_last() =~= a);
}

/// Escaping splits over any cut of the text.
pub proof fn lemma_escape_split(t: Seq<char>, m: int)
    requires
        0 <= m <= t.len(),
    ensures
        escape_text(t) == escape_text(t.subrange(0, m)) + escape_text(
            t.subrange(m, t.len() as int),
        ),
    decreases t.len(),
{
    if m == t.len() {
        assert(t.subrange(0, m) =~= t);
        assert(escape_text(t) =~= escape_text(t.subrange(0, m)) + escape_text(
            t.subrange(m, t.len() as int),
        ));
    } else {
        let t2 = t.drop_last();
        lemma_escape_split(t2, m);
        assert(t2.subrange(0, m) =~= t.subrange(0, m));
        let post = t.subrange(m, t.len() as int);
        assert(post.drop_last() =~= t2.subrange(m, t2.len() as int));
        assert(post.last() == t.last());
        assert(escape_text(t) =~= escape_text(t.subrange(0, m)) + escape_text(post));
    }
}

/// What the first character of an escaped form can be.
pub proof fn lemma_esc_char_head(c: char)
    ensures
        esc_char(c).len() >= 1,
        esc_char(c)[0] != '\"',
        esc_char(c)[0] != '\\' ==> esc_char(c) == seq![c],
        esc_char(c)[0] == '\\' ==> esc_char(c).len() == 2 || esc_char(c).len() == 6,
{
}

/// Where a walk through a quoted text stands after unescaping `m` of its
/// characters: on the closing quote when `m` is all of them, else on the
/// escaped form of the next one.
pub proof fn lemma_quoted_probe(s: Seq<char>, i: int, t: Seq<char>, m: int)
    requires
        text_at(s, i, quoted(t)),
        0 <= m <= t.len(),
    ensures
        escape_text(t.subrange(0, m)).len() + (if m < t.len() {
            esc_char(t[m]).len() as int
        } else {
            0
        }) <= escape_text(t).len(),
        i + quoted(t).len() <= s.len(),
        m == t.len() ==> i + 1 + escape_text(t.subrange(0, m)).len() == i + quoted(t).len() - 1
            && s[i + 1 + escape_text(t.subrange(0, m)).len()] == '\"',
        m < t.len() ==> forall|q: int|
            0 <= q < esc_char(t[m]).len() ==> s[i + 1 + escape_text(t.subrange(0, m)).len() + q]
                == esc_char(t[m])[q],
{
    let pre = escape_text(t.subrange(0, m));
    lemma_escape_split(t, m);
    if m == t.len() {
        assert(t.subrange(m, t.len() as int) =~= Seq::<char>::empty());
        assert(escape_text(Seq::<char>::empty()) =~= Seq::<char>::empty());
        assert(escape_text(t) == pre + escape_text(Seq::<char>::empty()));
        assert(escape_text(t) =~= pre);
        lemma_text_at_index(s, i, quoted(t), 1 + pre.len() as int);
        assert(quoted(t)[1 + pre.len() as int] == '\"');
    } else {
        let pre1 = t.subrange(0, m + 1);
        lemma_escape_split(t, m + 1);
        lemma_escape_snoc(t.subrange(0, m), t[m]);
        assert(pre1 =~= t.subrange(0, m).push(t[m]));
        assert(escape_text(pre1) == pre + esc_char(t[m]));
        assert(escape_text(t) == escape_text(pre1) + escape_text(t.subrange(m + 1, t.len() as int)));
        assert forall|q: int|
            0 <= q < esc_char(t[m]).len() implies s[i + 1 + pre.len() + q] == esc_char(t[m])[q] by {
            lemma_text_at_index(s, i, quoted(t), 1 + pre.len() as int + q);
            assert(quoted(t)[1 + pre.len() + q] == escape_text(t)[pre.len() + q]);
            assert(escape_text(t)[pre.len() + q] == esc_char(t[m])[q]);
        }
    }
}

/// At a walk position inside a quoted text, the raw characters are exactly
/// the escaped form of the next character of the text.
pub proof fn lemma_esc_step(s: Seq<char>, i: int, t: Seq<char>, m: int, j: int)
    requires
        text_at(s, i, quoted(t)),
        0 <= m < t.len(),
        j == i + 1 + escape_text(t.subrange(0, m)).len() as int,
    ensures
        s[j] == esc_char(t[m])[0],
        esc_char(t[m])[0] == '\\' ==> s[j + 1] == esc_char(t[m])[1],
        j + esc_char(t[m]).len() + 1 <= s.len(),
        escape_text(t.subrange(0, m + 1)) == escape_text(t.subrange(0, m)) + esc_char(t[m]),
        t.subrange(0, m).push(t[m]) =~= t.subrange(0, m + 1),
        esc_char(t[m]).len() >= 1,
        esc_char(t[m])[0] != '\"',
        esc_char(t[m])[0] != '\\' ==> esc_char(t[m]) == seq![t[m]],
        esc_char(t[m])[0] == '\\' ==> esc_char(t[m]).len() == 2 || esc_char(t[m]).len() == 6,
{
    lemma_quoted_probe(s, i, t, m);
    lemma_esc_char_head(t[m]);
    lemma_escape_snoc(t.subrange(0, m), t[m]);
    assert(t.subrange(0, m).push(t[m]) =~= t.subrange(0, m + 1));
    assert(s[j] == esc_char(t[m])[0]);
    if esc_char(t[m])[0] == '\\' {
        assert(s[j + 1] == esc_char(t[m])[1]);
    }
}

/// The six-character escape stands for a control character, digit by digit.
pub proof fn lemma_esc_uni(s: Seq<char>, i: int, t: Seq<char>, m: int, j: int)
    requires
        text_at(s, i, quoted(t)),
        0 <= m < t.len(),
        j == i + 1 + escape_text(t.subrange(0, m)).len() as int,
        esc_char(t[m])[0] == '\\',
        esc_char(t[m])[1] == 'u',
    ensures
        (t[m] as u32) < 0x20,
        esc_char(t[m]).len() == 6,
        s[j + 2] == hex_of(0) && s[j + 3] == hex_of(0),
        s[j + 4] == hex_of(((t[m] as u32) / 16) as nat),
        s[j + 5] == hex_of(((t[m] as u32) % 16) as nat),
        hex_of(0) == '0',
        (((t[m] as u32) / 16) as nat) < 16,
        (((t[m] as u32) % 16) as nat) < 16,
        16 * ((t[m] as u32) / 16) + ((t[m] as u32) % 16) == t[m] as u32,
{
    lemma_quoted_probe(s, i, t, m);
    assert((t[m] as u32) < 0x20 && esc_char(t[m]).len() == 6);
    assert(s[j + 2] == esc_char(t[m])[2]);
    assert(s[j + 3] == esc_char(t[m])[3]);
    assert(s[j + 4] == esc_char(t[m])[4]);
    assert(s[j + 5] == esc_char(t[m])[5]);
}

} // verus!
