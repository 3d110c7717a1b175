//! Character-level text utilities the card model is built on: substring
//! search, decimal integer rendering and parsing, lexicographic order, and
//! the reversible single-line escaping used by the tab-separated export.
//! All specifications speak about `Seq<char>` views; positions are
//! character indices.

use vstd::prelude::*;

verus! {

/// Whether `pat` occurs in `s` starting at character position `i`.
pub open spec fn match_at(s: Seq<char>, pat: Seq<char>, i: int) -> bool {
    &&& 0 <= i
    &&& i + pat.len() <= s.len()
    &&& s.subrange(i, i + pat.len() as int) == pat
}

/// Whether `pat` occurs anywhere in `s`.
pub open spec fn contains_seq(s: Seq<char>, pat: Seq<char>) -> bool {
    exists|i: int| match_at(s, pat, i)
}

/// Decides whether `pat` occurs in `s` at position `i`.
pub fn match_here(s: &str, pat: &str, i: usize) -> (r: bool)
    requires
        i + pat@.len() <= s@.len(),
        s@.len() <= usize::MAX,
    ensures
        r == match_at(s@, pat@, i as int),
{
    let m = pat.unicode_len();
    let ghost sub = s@.subrange(i as int, i + pat@.len() as int);
    let mut k: usize = 0;
    while k < m
        invariant
            m == pat@.len(),
            i + m <= s@.len(),
            s@.len() <= usize::MAX,
            0 <= k <= m,
            sub == s@.subrange(i as int, i + pat@.len() as int),
            forall|t: int| 0 <= t < k ==> s@[i + t] == pat@[t],
        decreases m - k,
    {
        if s.get_char(i + k) != pat.get_char(k) {
            proof {
                assert(sub[k as int] == s@[i + k]);
            }
            return false;
        }
        k = k + 1;
    }
    proof {
        assert(sub =~= pat@);
    }
    true
}

/// Finds the first occurrence of `pat` in `s` at or after position `from`.
pub fn find_from(s: &str, pat: &str, from: usize) -> (r: Option<usize>)
    ensures
        r matches Some(i) ==> from <= i && match_at(s@, pat@, i as int) && (forall|j: int|
            from <= j < i ==> !match_at(s@, pat@, j)),
        r is None ==> forall|j: int| from <= j ==> !match_at(s@, pat@, j),
{
    let n = s.unicode_len();
    let m = pat.unicode_len();
    if m > n || from > n - m {
        proof {
            assert(forall|j: int| j >= from ==> !match_at(s@, pat@, j));
        }
        return None;
    }
    if m == 0 {
        proof {
            assert(s@.subrange(from as int, from as int) =~= pat@);
        }
        return Some(from);
    }
    let mut i: usize = from;
    while i <= n - m
        invariant
            n == s@.len(),
            m == pat@.len(),
            1 <= m <= n,
            from <= i <= n - m + 1,
            forall|j: int| from <= j < i ==> !match_at(s@, pat@, j),
        decreases n - i,
    {
        if match_here(s, pat, i) {
            return Some(i);
        }
        i = i + 1;
    }
    proof {
        assert(forall|j: int| j >= i ==> !match_at(s@, pat@, j));
    }
    None
}

/// Decides whether `pat` occurs anywhere in `s`.
pub fn contains_str(s: &str, pat: &str) -> (r: bool)
    ensures
        r == contains_seq(s@, pat@),
{
    match find_from(s, pat, 0) {
        Some(_) => true,
        None => false,
    }
}

/// Decides character-for-character equality of two string slices.
pub fn str_eq(a: &str, b: &str) -> (r: bool)
    ensures
        r == (a@ == b@),
{
    let n = a.unicode_len();
    if n != b.unicode_len() {
        return false;
    }
    let r = match_here(a, b, 0);
    proof {
        assert(a@.subrange(0, b@.len() as int) =~= a@);
    }
    r
}

/// Lexicographic order on character sequences, the order `str` comparison
/// gives (code points order the same way as UTF-8 bytes).
pub open spec fn lex_le(a: Seq<char>, b: Seq<char>) -> bool
    decreases a.len(),
{
    if a.len() == 0 {
        true
    } else if b.len() == 0 {
        false
    } else if a[0] < b[0] {
        true
    } else if a[0] > b[0] {
        false
    } else {
        lex_le(a.skip(1), b.skip(1))
    }
}

proof fn lemma_lex_le_skip(a: Seq<char>, b: Seq<char>, i: int)
    requires
        0 <= i <= a.len(),
        i <= b.len(),
        forall|j: int| 0 <= j < i ==> a[j] == b[j],
    ensures
        lex_le(a, b) == lex_le(a.skip(i), b.skip(i)),
    decreases i,
{
    if i == 0 {
        assert(a.skip(0) =~= a);
        assert(b.skip(0) =~= b);
    } else {
        assert(a.len() > 0 && b.len() > 0);
        assert(a[0] == b[0]);
        lemma_lex_le_skip(a.skip(1), b.skip(1), i - 1);
        assert(a.skip(1).skip(i - 1) =~= a.skip(i));
        assert(b.skip(1).skip(i - 1) =~= b.skip(i));
    }
}

/// Decides the lexicographic order of two string slices.
pub fn lex_le_str(a: &str, b: &str) -> (r: bool)
    ensures
        r == lex_le(a@, b@),
{
    let na = a.unicode_len();
    let nb = b.unicode_len();
    let mut i: usize = 0;
    loop
        invariant
            na == a@.len(),
            nb == b@.len(),
            0 <= i <= na,
            i <= nb,
            forall|j: int| 0 <= j < i ==> a@[j] == b@[j],
        decreases na - i,
    {
        proof {
            lemma_lex_le_skip(a@, b@, i as int);
        }
        if i >= na {
            return true;
        }
        if i >= nb {
            return false;
        }
        let ca = a.get_char(i);
        let cb = b.get_char(i);
        if ca < cb {
            return true;
        }
        if ca > cb {
            return false;
        }
        i = i + 1;
    }
}

/// The character of one decimal digit.
pub open spec fn digit_char_of(d: int) -> char {
    if d == 0 {
        '0'
    } else if d == 1 {
        '1'
    } else if d == 2 {
        '2'
    } else if d == 3 {
        '3'
    } else if d == 4 {
        '4'
    } else if d == 5 {
        '5'
    } else if d == 6 {
        '6'
    } else if d == 7 {
        '7'
    } else if d == 8 {
        '8'
    } else {
        '9'
    }
}

pub open spec fn is_digit_char(c: char) -> bool {
    '0' <= c <= '9'
}

/// The value of one decimal digit character.
pub open spec fn digit_val_of(c: char) -> int {
    c as int - 48
}

/// The decimal digits of a nonnegative number, most significant first.
pub open spec fn dec_digits_of(n: int) -> Seq<char>
    decreases n,
{
    if n < 10 {
        seq![digit_char_of(n)]
    } else {
        dec_digits_of(n / 10).push(digit_char_of(n % 10))
    }
}

/// The decimal text of an integer, as `{}` formatting renders it.
pub open spec fn int_text_of(n: int) -> Seq<char> {
    if n < 0 {
        seq!['-'] + dec_digits_of(-n)
    } else {
        dec_digits_of(n)
    }
}

pub open spec fn all_digit_chars(s: Seq<char>) -> bool {
    forall|i: int| 0 <= i < s.len() ==> is_digit_char(s[i])
}

/// Whether `s` is what `str::parse` accepts for an integer type: an
/// optional sign followed by at least one decimal digit.
pub open spec fn is_int_text(s: Seq<char>) -> bool {
    if s.len() == 0 {
        false
    } else if s[0] == '+' || s[0] == '-' {
        s.len() >= 2 && all_digit_chars(s.skip(1))
    } else {
        all_digit_chars(s)
    }
}

/// The value of a digit string, most significant digit first.
pub open spec fn digits_val_of(s: Seq<char>) -> int
    decreases s.len(),
{
    if s.len() == 0 {
        0
    } else {
        digits_val_of(s.drop_last()) * 10 + digit_val_of(s.last())
    }
}

/// The value named by an integer text (sign applied).
pub open spec fn int_text_val(s: Seq<char>) -> int {
    if s.len() > 0 && s[0] == '-' {
        -digits_val_of(s.skip(1))
    } else if s.len() > 0 && s[0] == '+' {
        digits_val_of(s.skip(1))
    } else {
        digits_val_of(s)
    }
}

proof fn lemma_digits_val_nonneg(s: Seq<char>)
    requires
        all_digit_chars(s),
    ensures
        digits_val_of(s) >= 0,
    decreases s.len(),
{
    if s.len() > 0 {
        assert(all_digit_chars(s.drop_last()));
        lemma_digits_val_nonneg(s.drop_last());
        assert(is_digit_char(s.last()));
    }
}

/// A digit string is worth at least any of its prefixes.
proof fn lemma_digits_val_prefix(s: Seq<char>, i: int)
    requires
        all_digit_chars(s),
        0 <= i <= s.len(),
    ensures
        digits_val_of(s) >= digits_val_of(s.take(i)),
    decreases s.len() - i,
{
    if i < s.len() {
        lemma_digits_val_prefix(s, i + 1);
        assert(s.take(i + 1).drop_last() =~= s.take(i));
        assert(all_digit_chars(s.take(i)));
        lemma_digits_val_nonneg(s.take(i));
        assert(is_digit_char(s.take(i + 1).last()));
    } else {
        assert(s.take(i) =~= s);
    }
}

/// The one-character strings for the decimal digits.
fn digit_str(d: u64) -> (r: &'static str)
    requires
        d <= 9,
    ensures
        r@ == seq![digit_char_of(d as int)],
{
    proof {
        reveal_strlit("0");
        reveal_strlit("1");
        reveal_strlit("2");
        reveal_strlit("3");
        reveal_strlit("4");
        reveal_strlit("5");
        reveal_strlit("6");
        reveal_strlit("7");
        reveal_strlit("8");
        reveal_strlit("9");
    }
    let r = if d == 0 {
        "0"
    } else if d == 1 {
        "1"
    } else if d == 2 {
        "2"
    } else if d == 3 {
        "3"
    } else if d == 4 {
        "4"
    } else if d == 5 {
        "5"
    } else if d == 6 {
        "6"
    } else if d == 7 {
        "7"
    } else if d == 8 {
        "8"
    } else {
        "9"
    };
    proof {
        assert(r@ =~= seq![digit_char_of(d as int)]);
    }
    r
}

/// Appends the decimal digits of `n` to `out`.
fn append_digits(out: &mut String, n: u64)
    ensures
        final(out)@ == old(out)@ + dec_digits_of(n as int),
    decreases n,
{
    if n >= 10 {
        append_digits(out, n / 10);
    }
    out.append(digit_str(n % 10));
    proof {
        if n < 10 {
            assert(final(out)@ =~= old(out)@ + dec_digits_of(n as int));
        } else {
            assert(final(out)@ =~= old(out)@ + dec_digits_of(n as int));
        }
    }
}

/// Renders an integer in decimal, as `{}` formatting does.
pub fn i64_to_string(n: i64) -> (r: String)
    ensures
        r@ == int_text_of(n as int),
{
    let mut out = String::new();
    if n < 0 {
        proof {
            reveal_strlit("-");
        }
        out.append("-");
        let mag: u64 = (-(n as i128)) as u64;
        append_digits(&mut out, mag);
        proof {
            assert("-"@ =~= seq!['-']);
            assert(out@ =~= int_text_of(n as int));
        }
    } else {
        append_digits(&mut out, n as u64);
    }
    out
}

/// The text of a boolean, as `{}` formatting and `str::parse` have it.
pub open spec fn bool_text_of(b: bool) -> Seq<char> {
    if b {
        seq!['t', 'r', 'u', 'e']
    } else {
        seq!['f', 'a', 'l', 's', 'e']
    }
}

/// Renders a boolean as its keyword.
pub fn bool_to_str(b: bool) -> (r: &'static str)
    ensures
        r@ == bool_text_of(b),
{
    proof {
        reveal_strlit("true");
        reveal_strlit("false");
    }
    let r = if b {
        "true"
    } else {
        "false"
    };
    proof {
        assert(r@ =~= bool_text_of(b));
    }
    r
}

/// Parses a boolean keyword, as `str::parse` does.
pub fn parse_bool(s: &str) -> (r: Option<bool>)
    ensures
        s@ == bool_text_of(true) ==> r == Some(true),
        s@ == bool_text_of(false) ==> r == Some(false),
        s@ != bool_text_of(true) && s@ != bool_text_of(false) ==> r is None,
{
    proof {
        reveal_strlit("true");
        reveal_strlit("false");
        assert("true"@ =~= bool_text_of(true));
        assert("false"@ =~= bool_text_of(false));
    }
    if str_eq(s, "true") {
        Some(true)
    } else if str_eq(s, "false") {
        Some(false)
    } else {
        None
    }
}

/// Parses a signed 64-bit integer, accepting exactly what `str::parse`
/// accepts: an optional sign, then one or more decimal digits naming a
/// value in range.
pub fn parse_i64(s: &str) -> (r: Option<i64>)
    ensures
        r is Some <==> is_int_text(s@) && i64::MIN <= int_text_val(s@) <= i64::MAX,
        r matches Some(v) ==> v as int == int_text_val(s@),
{
    let n = s.unicode_len();
    if n == 0 {
        return None;
    }
    let c0 = s.get_char(0);
    let neg = c0 == '-';
    let start: usize = if c0 == '-' || c0 == '+' {
        1
    } else {
        0
    };
    if start >= n {
        return None;
    }
    let ghost digits = s@.skip(start as int);
    let mut acc: u128 = 0;
    let mut i: usize = start;
    while i < n
        invariant
            n == s@.len(),
            start <= i <= n,
            start <= 1,
            1 <= n,
            neg == (s@[0] == '-'),
            (start == 1) == (s@[0] == '-' || s@[0] == '+'),
            digits == s@.skip(start as int),
            all_digit_chars(s@.subrange(start as int, i as int)),
            acc == digits_val_of(s@.subrange(start as int, i as int)),
            acc <= 0x8000_0000_0000_0000,
        decreases n - i,
    {
        let c = s.get_char(i);
        if c < '0' || c > '9' {
            proof {
                assert(digits[i - start] == s@[i as int]);
                assert(!all_digit_chars(digits));
                if start == 1 {
                    assert(digits =~= s@.skip(1));
                } else {
                    assert(digits =~= s@);
                }
                assert(!is_int_text(s@));
            }
            return None;
        }
        let d: u32 = c as u32 - 48;
        proof {
            assert(s@.subrange(start as int, i + 1) =~= s@.subrange(
                start as int,
                i as int,
            ).push(s@[i as int]));
            assert(s@.subrange(start as int, i + 1).drop_last() =~= s@.subrange(
                start as int,
                i as int,
            ));
        }
        acc = acc * 10 + (d as u128);
        i = i + 1;
        if acc > 0x8000_0000_0000_0000 {
            proof {
                let done = s@.subrange(start as int, i as int);
                if start == 1 {
                    assert(digits =~= s@.skip(1));
                } else {
                    assert(digits =~= s@);
                }
                if all_digit_chars(digits) {
                    lemma_digits_val_prefix(digits, i - start);
                    assert(digits.take(i - start) =~= done);
                    assert(digits_val_of(digits) > 0x8000_0000_0000_0000);
                    assert(!(i64::MIN <= int_text_val(s@) <= i64::MAX));
                } else {
                    assert(!is_int_text(s@));
                }
            }
            return None;
        }
    }
    proof {
        assert(s@.subrange(start as int, n as int) =~= digits);
        if start == 1 {
            assert(digits =~= s@.skip(1));
        } else {
            assert(digits =~= s@);
        }
        assert(all_digit_chars(digits));
        assert(is_int_text(s@));
        lemma_digits_val_nonneg(digits);
    }
    if neg {
        let v: i64 = (-(acc as i128)) as i64;
        Some(v)
    } else {
        if acc > 0x7FFF_FFFF_FFFF_FFFF {
            proof {
                assert(int_text_val(s@) > i64::MAX);
            }
            return None;
        }
        let v: i64 = acc as i64;
        Some(v)
    }
}

/// Parses a signed 32-bit integer, as `str::parse` does.
pub fn parse_i32(s: &str) -> (r: Option<i32>)
    ensures
        r is Some <==> is_int_text(s@) && i32::MIN <= int_text_val(s@) <= i32::MAX,
        r matches Some(v) ==> v as int == int_text_val(s@),
{
    match parse_i64(s) {
        Some(v) => {
            if v >= -0x8000_0000 && v <= 0x7FFF_FFFF {
                Some(v as i32)
            } else {
                None
            }
        },
        None => None,
    }
}


/// The bracketed form that a literal backslash-n pair escapes to.
pub open spec fn bracket_n() -> Seq<char> {
    seq!['[', '\\', ']', 'n']
}

/// The bracketed form that a literal backslash-t pair escapes to.
pub open spec fn bracket_t() -> Seq<char> {
    seq!['[', '\\', ']', 't']
}

/// The single-line escaping of `s`: literal backslash-n and backslash-t
/// pairs become bracketed, then real newline and tab characters become
/// backslash-n and backslash-t. Scanned left to right, earlier rules first.
pub open spec fn singleline_of(s: Seq<char>) -> Seq<char>
    decreases s.len(),
{
    if s.len() == 0 {
        Seq::empty()
    } else if s.len() >= 2 && s[0] == '\\' && s[1] == 'n' {
        bracket_n() + singleline_of(s.skip(2))
    } else if s.len() >= 2 && s[0] == '\\' && s[1] == 't' {
        bracket_t() + singleline_of(s.skip(2))
    } else if s[0] == '\n' {
        seq!['\\', 'n'] + singleline_of(s.skip(1))
    } else if s[0] == '\t' {
        seq!['\\', 't'] + singleline_of(s.skip(1))
    } else {
        seq![s[0]] + singleline_of(s.skip(1))
    }
}

/// The reverse substitution: backslash pairs back to newline and tab first,
/// then bracketed forms back to literal pairs.
pub open spec fn multiline_of(s: Seq<char>) -> Seq<char>
    decreases s.len(),
{
    if s.len() == 0 {
        Seq::empty()
    } else if s.len() >= 2 && s[0] == '\\' && s[1] == 't' {
        seq!['\t'] + multiline_of(s.skip(2))
    } else if s.len() >= 2 && s[0] == '\\' && s[1] == 'n' {
        seq!['\n'] + multiline_of(s.skip(2))
    } else if s.len() >= 4 && s[0] == '[' && s[1] == '\\' && s[2] == ']' && s[3] == 't' {
        seq!['\\', 't'] + multiline_of(s.skip(4))
    } else if s.len() >= 4 && s[0] == '[' && s[1] == '\\' && s[2] == ']' && s[3] == 'n' {
        seq!['\\', 'n'] + multiline_of(s.skip(4))
    } else {
        seq![s[0]] + multiline_of(s.skip(1))
    }
}

/// Inputs on which the escaping round-trips: text that does not already
/// contain one of the bracketed forms.
pub open spec fn roundtrip_safe(s: Seq<char>) -> bool {
    !contains_seq(s, bracket_n()) && !contains_seq(s, bracket_t())
}

/// Whether `t` is free of real newline and tab characters.
pub open spec fn line_clean(t: Seq<char>) -> bool {
    forall|i: int| 0 <= i < t.len() ==> t[i] != '\t' && t[i] != '\n'
}

/// The escaped form of any text carries no real newline or tab.
pub proof fn lemma_singleline_clean(s: Seq<char>)
    ensures
        line_clean(singleline_of(s)),
    decreases s.len(),
{
    if s.len() == 0 {
    } else if s.len() >= 2 && s[0] == '\\' && (s[1] == 'n' || s[1] == 't') {
        lemma_singleline_clean(s.skip(2));
    } else {
        lemma_singleline_clean(s.skip(1));
    }
}

/// A text without an occurrence of `pat` has none in any of its suffixes.
proof fn lemma_no_contains_skip(s: Seq<char>, pat: Seq<char>, k: int)
    requires
        !contains_seq(s, pat),
        0 <= k <= s.len(),
    ensures
        !contains_seq(s.skip(k), pat),
{
    assert forall|i: int| !match_at(s.skip(k), pat, i) by {
        if 0 <= i && i + pat.len() <= s.skip(k).len() {
            if s.skip(k).subrange(i, i + pat.len() as int) == pat {
                assert(s.subrange(k + i, k + i + pat.len()) =~= s.skip(k).subrange(
                    i,
                    i + pat.len() as int,
                ));
                assert(match_at(s, pat, k + i));
            }
        }
    }
}

/// What the escaped form of `s` can start with: nothing, or one of `[`,
/// `\`, or the first character of `s` itself.
proof fn lemma_singleline_head(s: Seq<char>)
    ensures
        s.len() == 0 ==> singleline_of(s).len() == 0,
        s.len() > 0 ==> singleline_of(s).len() > 0,
        s.len() > 0 ==> (singleline_of(s)[0] == '[' || singleline_of(s)[0] == '\\'
            || singleline_of(s)[0] == s[0]),
{
}

/// An escaped form starting with `\ ] x` (x one of `n`, `t`) can only come
/// from source text that itself starts with `\ ] x`.
proof fn lemma_singleline_backslash_bracket(r: Seq<char>, x: char)
    requires
        x == 'n' || x == 't',
        singleline_of(r).len() >= 3,
        singleline_of(r)[0] == '\\',
        singleline_of(r)[1] == ']',
        singleline_of(r)[2] == x,
    ensures
        r.len() >= 3,
        r[0] == '\\',
        r[1] == ']',
        r[2] == x,
{
    let e = singleline_of(r);
    assert(r.len() > 0);
    // The branches for a newline or tab head put `n` or `t` second, not `]`;
    // so the head is a literal backslash.
    if r.len() >= 2 && r[0] == '\\' && (r[1] == 'n' || r[1] == 't') {
        assert(e[1] == r[1]);
        assert(false);
    }
    if r[0] == '\n' || r[0] == '\t' {
        assert(false);
    }
    assert(r[0] == '\\');
    let r1 = r.skip(1);
    let e1 = singleline_of(r1);
    assert(e == seq![r[0]] + e1);
    assert(e1.len() >= 2);
    assert(e1[0] == ']' && e1[1] == x);
    lemma_singleline_head(r1);
    assert(r1.len() > 0 && r1[0] == ']');
    let r2 = r1.skip(1);
    let e2 = singleline_of(r2);
    assert(e1 == seq![r1[0]] + e2);
    assert(e2.len() >= 1);
    assert(e2[0] == x);
    lemma_singleline_head(r2);
    assert(r2.len() > 0 && r2[0] == x);
    assert(r[1] == r1[0]);
    assert(r[2] == r2[0]);
}

/// Escaping then unescaping gives the text back, for every text that does
/// not already contain a bracketed form.
pub proof fn lemma_singleline_roundtrip(s: Seq<char>)
    requires
        roundtrip_safe(s),
    ensures
        multiline_of(singleline_of(s)) == s,
    decreases s.len(),
{
    let e = singleline_of(s);
    if s.len() == 0 {
        assert(multiline_of(e) =~= s);
    } else if s.len() >= 2 && s[0] == '\\' && s[1] == 'n' {
        let rest = s.skip(2);
        lemma_no_contains_skip(s, bracket_n(), 2);
        lemma_no_contains_skip(s, bracket_t(), 2);
        lemma_singleline_roundtrip(rest);
        let er = singleline_of(rest);
        assert(e == bracket_n() + er);
        assert(e[0] == '[' && e[1] == '\\' && e[2] == ']' && e[3] == 'n');
        assert(e.skip(4) =~= er);
        assert(multiline_of(e) == seq!['\\', 'n'] + multiline_of(er));
        assert(multiline_of(e) =~= s);
    } else if s.len() >= 2 && s[0] == '\\' && s[1] == 't' {
        let rest = s.skip(2);
        lemma_no_contains_skip(s, bracket_n(), 2);
        lemma_no_contains_skip(s, bracket_t(), 2);
        lemma_singleline_roundtrip(rest);
        let er = singleline_of(rest);
        assert(e == bracket_t() + er);
        assert(e[0] == '[' && e[1] == '\\' && e[2] == ']' && e[3] == 't');
        assert(e.skip(4) =~= er);
        assert(multiline_of(e) == seq!['\\', 't'] + multiline_of(er));
        assert(multiline_of(e) =~= s);
    } else if s[0] == '\n' {
        let rest = s.skip(1);
        lemma_no_contains_skip(s, bracket_n(), 1);
        lemma_no_contains_skip(s, bracket_t(), 1);
        lemma_singleline_roundtrip(rest);
        let er = singleline_of(rest);
        assert(e == seq!['\\', 'n'] + er);
        assert(e[0] == '\\' && e[1] == 'n');
        assert(e.skip(2) =~= er);
        assert(multiline_of(e) == seq!['\n'] + multiline_of(er));
        assert(multiline_of(e) =~= s);
    } else if s[0] == '\t' {
        let rest = s.skip(1);
        lemma_no_contains_skip(s, bracket_n(), 1);
        lemma_no_contains_skip(s, bracket_t(), 1);
        lemma_singleline_roundtrip(rest);
        let er = singleline_of(rest);
        assert(e == seq!['\\', 't'] + er);
        assert(e.skip(2) =~= er);
        assert(multiline_of(e) == seq!['\t'] + multiline_of(er));
        assert(multiline_of(e) =~= s);
    } else {
        let c = s[0];
        let rest = s.skip(1);
        lemma_no_contains_skip(s, bracket_n(), 1);
        lemma_no_contains_skip(s, bracket_t(), 1);
        lemma_singleline_roundtrip(rest);
        let er = singleline_of(rest);
        assert(e == seq![c] + er);
        assert(e[0] == c);
        assert(e.skip(1) =~= er);
        lemma_singleline_head(rest);
        // The head character never combines with the escaped tail into a
        // backslash pair: a backslash head would need an `n` or `t` next,
        // which the tail cannot start with here.
        if c == '\\' && e.len() >= 2 && (e[1] == 't' || e[1] == 'n') {
            assert(rest.len() > 0 && er[0] == rest[0]);
            assert(false);
        }
        // Nor into a bracketed form: that would force a bracketed form in
        // the source, which the precondition excludes.
        if c == '[' && e.len() >= 4 && e[1] == '\\' && e[2] == ']' && (e[3] == 't' || e[3]
            == 'n') {
            assert(er[0] == '\\' && er[1] == ']' && er[2] == e[3]);
            lemma_singleline_backslash_bracket(rest, e[3]);
            assert(s.subrange(0, 4) =~= (if e[3] == 'n' {
                bracket_n()
            } else {
                bracket_t()
            }));
            assert(match_at(s, s.subrange(0, 4), 0));
            assert(false);
        }
        assert(multiline_of(e) == seq![c] + multiline_of(er));
        assert(multiline_of(e) =~= s);
    }
}


/// Applies the single-line escaping to a text.
pub fn convert_to_singleline(input: String) -> (r: String)
    ensures
        r@ == singleline_of(input@),
{
    proof {
        reveal_strlit("[\\]n");
        reveal_strlit("[\\]t");
        reveal_strlit("\\n");
        reveal_strlit("\\t");
    }
    let n = input.as_str().unicode_len();
    let mut out = String::new();
    let mut i: usize = 0;
    proof {
        assert(input@.skip(0) =~= input@);
        assert(out@ + singleline_of(input@) =~= singleline_of(input@));
    }
    while i < n
        invariant
            n == input@.len(),
            0 <= i <= n,
            singleline_of(input@) == out@ + singleline_of(input@.skip(i as int)),
            "[\\]n"@ == bracket_n(),
            "[\\]t"@ == bracket_t(),
            "\\n"@ == seq!['\\', 'n'],
            "\\t"@ == seq!['\\', 't'],
        decreases n - i,
    {
        let ghost rem = input@.skip(i as int);
        let ghost out0 = out@;
        let c = input.as_str().get_char(i);
        let pair = if n - i > 1 {
            input.as_str().get_char(i + 1)
        } else {
            c
        };
        proof {
            assert(rem[0] == input@[i as int]);
            if n - i > 1 {
                assert(rem[1] == input@[i + 1]);
            }
        }
        if c == '\\' && n - i > 1 && pair == 'n' {
            out.append("[\\]n");
            i = i + 2;
            proof {
                assert(rem.skip(2) =~= input@.skip(i as int));
                assert(out@ + singleline_of(input@.skip(i as int)) =~= out0 + singleline_of(rem));
            }
        } else if c == '\\' && n - i > 1 && pair == 't' {
            out.append("[\\]t");
            i = i + 2;
            proof {
                assert(rem.skip(2) =~= input@.skip(i as int));
                assert(out@ + singleline_of(input@.skip(i as int)) =~= out0 + singleline_of(rem));
            }
        } else if c == '\n' {
            out.append("\\n");
            i = i + 1;
            proof {
                assert(rem.skip(1) =~= input@.skip(i as int));
                assert(out@ + singleline_of(input@.skip(i as int)) =~= out0 + singleline_of(rem));
            }
        } else if c == '\t' {
            out.append("\\t");
            i = i + 1;
            proof {
                assert(rem.skip(1) =~= input@.skip(i as int));
                assert(out@ + singleline_of(input@.skip(i as int)) =~= out0 + singleline_of(rem));
            }
        } else {
            out.append(input.as_str().substring_char(i, i + 1));
            i = i + 1;
            proof {
                assert(input@.subrange(i - 1, i as int) =~= seq![rem[0]]);
                assert(rem.skip(1) =~= input@.skip(i as int));
                assert(out@ + singleline_of(input@.skip(i as int)) =~= out0 + singleline_of(rem));
            }
        }
    }
    proof {
        assert(input@.skip(n as int) =~= Seq::<char>::empty());
        assert(out@ + singleline_of(input@.skip(n as int)) =~= out@);
    }
    out
}

/// Reverses the single-line escaping.
pub fn convert_from_singleline(input: String) -> (r: String)
    ensures
        r@ == multiline_of(input@),
{
    proof {
        reveal_strlit("\t");
        reveal_strlit("\n");
        reveal_strlit("\\n");
        reveal_strlit("\\t");
    }
    let n = input.as_str().unicode_len();
    let mut out = String::new();
    let mut i: usize = 0;
    proof {
        assert(input@.skip(0) =~= input@);
        assert(out@ + multiline_of(input@) =~= multiline_of(input@));
    }
    while i < n
        invariant
            n == input@.len(),
            0 <= i <= n,
            multiline_of(input@) == out@ + multiline_of(input@.skip(i as int)),
            "\t"@ == seq!['\t'],
            "\n"@ == seq!['\n'],
            "\\n"@ == seq!['\\', 'n'],
            "\\t"@ == seq!['\\', 't'],
        decreases n - i,
    {
        let ghost rem = input@.skip(i as int);
        let ghost out0 = out@;
        let c = input.as_str().get_char(i);
        let c1 = if n - i > 1 {
            input.as_str().get_char(i + 1)
        } else {
            c
        };
        let c2 = if n - i > 2 {
            input.as_str().get_char(i + 2)
        } else {
            c
        };
        let c3 = if n - i > 3 {
            input.as_str().get_char(i + 3)
        } else {
            c
        };
        proof {
            assert(rem[0] == input@[i as int]);
            if n - i > 1 {
                assert(rem[1] == input@[i + 1]);
            }
            if n - i > 2 {
                assert(rem[2] == input@[i + 2]);
            }
            if n - i > 3 {
                assert(rem[3] == input@[i + 3]);
            }
        }
        if c == '\\' && n - i > 1 && c1 == 't' {
            out.append("\t");
            i = i + 2;
            proof {
                assert(rem.skip(2) =~= input@.skip(i as int));
                assert(out@ + multiline_of(input@.skip(i as int)) =~= out0 + multiline_of(rem));
            }
        } else if c == '\\' && n - i > 1 && c1 == 'n' {
            out.append("\n");
            i = i + 2;
            proof {
                assert(rem.skip(2) =~= input@.skip(i as int));
                assert(out@ + multiline_of(input@.skip(i as int)) =~= out0 + multiline_of(rem));
            }
        } else if c == '[' && n - i > 3 && c1 == '\\' && c2 == ']' && c3 == 't' {
            out.append("\\t");
            i = i + 4;
            proof {
                assert(rem.skip(4) =~= input@.skip(i as int));
                assert(out@ + multiline_of(input@.skip(i as int)) =~= out0 + multiline_of(rem));
            }
        } else if c == '[' && n - i > 3 && c1 == '\\' && c2 == ']' && c3 == 'n' {
            out.append("\\n");
            i = i + 4;
            proof {
                assert(rem.skip(4) =~= input@.skip(i as int));
                assert(out@ + multiline_of(input@.skip(i as int)) =~= out0 + multiline_of(rem));
            }
        } else {
            out.append(input.as_str().substring_char(i, i + 1));
            i = i + 1;
            proof {
                assert(input@.subrange(i - 1, i as int) =~= seq![rem[0]]);
                assert(rem.skip(1) =~= input@.skip(i as int));
                assert(out@ + multiline_of(input@.skip(i as int)) =~= out0 + multiline_of(rem));
            }
        }
    }
    proof {
        assert(input@.skip(n as int) =~= Seq::<char>::empty());
        assert(out@ + multiline_of(input@.skip(n as int)) =~= out@);
    }
    out
}



/// A one-character pattern occurs at `j` exactly when that character is
/// there.
pub proof fn lemma_match_single(s: Seq<char>, c: char, j: int)
    requires
        0 <= j < s.len(),
    ensures
        match_at(s, seq![c], j) == (s[j] == c),
{
    assert(seq![c].len() == 1);
    assert(s.subrange(j, j + 1) =~= seq![s[j]]);
    if s[j] == c {
        assert(s.subrange(j, j + 1) =~= seq![c]);
    }
    if match_at(s, seq![c], j) {
        assert(s.subrange(j, j + 1)[0] == c);
    }
}

/// Position of the first tab in `s`, or `s.len()` if there is none.
pub open spec fn first_tab(s: Seq<char>) -> int
    decreases s.len(),
{
    if s.len() == 0 {
        0
    } else if s[0] == '\t' {
        0
    } else {
        1 + first_tab(s.skip(1))
    }
}

pub proof fn lemma_first_tab(s: Seq<char>)
    ensures
        0 <= first_tab(s) <= s.len(),
        first_tab(s) < s.len() ==> s[first_tab(s)] == '\t',
        forall|j: int| 0 <= j < first_tab(s) ==> s[j] != '\t',
    decreases s.len(),
{
    if s.len() > 0 && s[0] != '\t' {
        lemma_first_tab(s.skip(1));
        assert(forall|j: int| 0 <= j < first_tab(s.skip(1)) ==> s.skip(1)[j] != '\t');
        assert forall|j: int| 0 <= j < first_tab(s) implies s[j] != '\t' by {
            if j > 0 {
                assert(s.skip(1)[j - 1] == s[j]);
            }
        }
    }
}

/// A position with no tab before it, and a tab (or the end) at it, is the
/// first tab position.
pub proof fn lemma_first_tab_is(s: Seq<char>, k: int)
    requires
        0 <= k <= s.len(),
        forall|j: int| 0 <= j < k ==> s[j] != '\t',
        k < s.len() ==> s[k] == '\t',
        k == s.len() ==> forall|j: int| 0 <= j < s.len() ==> s[j] != '\t',
    ensures
        first_tab(s) == k,
    decreases k,
{
    if k == 0 {
        if s.len() > 0 && s[0] != '\t' {
            lemma_first_tab(s.skip(1));
        }
    } else {
        assert(s[0] != '\t');
        assert forall|j: int| 0 <= j < k - 1 implies s.skip(1)[j] != '\t' by {
            assert(s.skip(1)[j] == s[j + 1]);
        }
        if k - 1 == s.skip(1).len() {
            assert forall|j: int| 0 <= j < s.skip(1).len() implies s.skip(1)[j] != '\t' by {
                assert(s.skip(1)[j] == s[j + 1]);
            }
        }
        lemma_first_tab_is(s.skip(1), k - 1);
    }
}

#[via_fn]
proof fn split_tabs_decreases(s: Seq<char>) {
    lemma_first_tab(s);
}

/// The fields of a tab-separated line, with a trailing separator dropped,
/// as `str::split_terminator` has it.
pub open spec fn split_tabs(s: Seq<char>) -> Seq<Seq<char>>
    decreases s.len(),
    via split_tabs_decreases
{
    if s.len() == 0 {
        Seq::empty()
    } else {
        let k = first_tab(s);
        if k == s.len() {
            seq![s]
        } else {
            seq![s.take(k)] + split_tabs(s.skip(k + 1))
        }
    }
}

/// Fields joined with single tabs in between.
pub open spec fn join_tabs(fields: Seq<Seq<char>>) -> Seq<char>
    decreases fields.len(),
{
    if fields.len() == 0 {
        Seq::empty()
    } else if fields.len() == 1 {
        fields[0]
    } else {
        fields[0] + seq!['\t'] + join_tabs(fields.skip(1))
    }
}

/// Whether `t` contains no tab character.
pub open spec fn tab_free(t: Seq<char>) -> bool {
    forall|i: int| 0 <= i < t.len() ==> t[i] != '\t'
}

/// Joining tab-free fields and splitting again gives the fields back,
/// provided the last field is not empty (a trailing separator would be
/// dropped by the split).
pub proof fn lemma_split_join(fields: Seq<Seq<char>>)
    requires
        fields.len() >= 1,
        forall|i: int| 0 <= i < fields.len() ==> tab_free(#[trigger] fields[i]),
        fields.last().len() > 0,
    ensures
        split_tabs(join_tabs(fields)) == fields,
    decreases fields.len(),
{
    let s = join_tabs(fields);
    if fields.len() == 1 {
        assert(s == fields[0]);
        assert(tab_free(fields[0]));
        lemma_first_tab_is(s, s.len() as int);
        assert(split_tabs(s) =~= fields);
    } else {
        let f0 = fields[0];
        let rest = fields.skip(1);
        let tail = join_tabs(rest);
        assert(s == f0 + seq!['\t'] + tail);
        assert(forall|j: int| 0 <= j < f0.len() ==> s[j] == f0[j]);
        assert(s[f0.len() as int] == '\t');
        lemma_first_tab_is(s, f0.len() as int);
        assert(s.take(f0.len() as int) =~= f0);
        assert(s.skip(f0.len() as int + 1) =~= tail);
        assert(rest.last() == fields.last());
        lemma_split_join(rest);
        assert(split_tabs(s) =~= seq![f0] + split_tabs(tail));
        assert(seq![f0] + rest =~= fields);
    }
}

/// Splits a line at its tabs, dropping a trailing separator, as
/// `str::split_terminator` does.
pub fn split_tabs_vec(s: &str) -> (r: Vec<String>)
    ensures
        r@.len() == split_tabs(s@).len(),
        forall|i: int| 0 <= i < r@.len() ==> r@[i]@ == split_tabs(s@)[i],
{
    proof {
        reveal_strlit("\t");
    }
    let n = s.unicode_len();
    let mut parts: Vec<String> = Vec::new();
    let mut cur: usize = 0;
    let ghost pieces = split_tabs(s@);
    proof {
        assert(s@.skip(0) =~= s@);
        assert(parts@.map_values(|t: String| t@) + split_tabs(s@) =~= split_tabs(s@));
    }
    while cur < n
        invariant
            n == s@.len(),
            0 <= cur <= n,
            pieces == split_tabs(s@),
            pieces == parts@.map_values(|t: String| t@) + split_tabs(s@.skip(cur as int)),
            "\t"@ == seq!['\t'],
        decreases n - cur,
    {
        let ghost rem = s@.skip(cur as int);
        let ghost done = parts@.map_values(|t: String| t@);
        let k = match find_from(s, "\t", cur) {
            Some(j) => j,
            None => n,
        };
        proof {
            assert forall|j: int| cur <= j < n implies (s@[j] == '\t') == match_at(
                s@,
                seq!['\t'],
                j,
            ) by {
                lemma_match_single(s@, '\t', j);
            }
            assert forall|j: int| 0 <= j < k - cur implies rem[j] != '\t' by {
                assert(rem[j] == s@[cur + j]);
            }
            if k < n {
                assert(rem[k - cur] == s@[k as int]);
            }
            if k == n {
                assert forall|j: int| 0 <= j < rem.len() implies rem[j] != '\t' by {
                    assert(rem[j] == s@[cur + j]);
                }
            }
            lemma_first_tab_is(rem, k - cur);
        }
        let piece = s.substring_char(cur, k);
        let owned = piece.to_owned();
        parts.push(owned);
        proof {
            assert(rem.take(k - cur) =~= s@.subrange(cur as int, k as int));
            if k == n {
                assert(rem =~= s@.subrange(cur as int, k as int));
            }
        }
        if k >= n {
            cur = n;
            proof {
                assert(split_tabs(rem) =~= seq![rem]);
                assert(s@.skip(n as int) =~= Seq::<char>::empty());
                assert(parts@.map_values(|t: String| t@) =~= done.push(rem));
                assert(done + split_tabs(rem) =~= done.push(rem));
                assert(parts@.map_values(|t: String| t@) + split_tabs(s@.skip(cur as int)) =~= done
                    + split_tabs(rem));
            }
        } else {
            cur = k + 1;
            proof {
                let piece0 = rem.take(k - cur + 1);
                assert(split_tabs(rem) =~= seq![rem.take(first_tab(rem))] + split_tabs(
                    rem.skip(first_tab(rem) + 1),
                ));
                assert(rem.skip(first_tab(rem) + 1) =~= s@.skip(cur as int));
                assert(parts@.map_values(|t: String| t@) =~= done.push(rem.take(first_tab(rem))));
                assert(parts@.map_values(|t: String| t@) + split_tabs(s@.skip(cur as int)) =~= done
                    + split_tabs(rem));
            }
        }
    }
    proof {
        assert(s@.skip(cur as int) =~= Seq::<char>::empty());
        assert(parts@.map_values(|t: String| t@) + split_tabs(s@.skip(cur as int))
            =~= parts@.map_values(|t: String| t@));
        assert forall|i: int| 0 <= i < parts@.len() implies parts@[i]@ == split_tabs(s@)[i] by {
            assert(parts@.map_values(|t: String| t@)[i] == parts@[i]@);
        }
    }
    parts
}


proof fn lemma_dec_digits(n: int)
    requires
        n >= 0,
    ensures
        all_digit_chars(dec_digits_of(n)),
        digits_val_of(dec_digits_of(n)) == n,
        dec_digits_of(n).len() >= 1,
        is_digit_char(dec_digits_of(n)[0]),
    decreases n,
{
    if n < 10 {
        let d = dec_digits_of(n);
        assert(d == seq![digit_char_of(n)]);
        assert(is_digit_char(digit_char_of(n)));
        assert(digit_val_of(digit_char_of(n)) == n);
        assert(d.drop_last() =~= Seq::<char>::empty());
        assert(digits_val_of(d.drop_last()) == 0);
        assert(d.last() == digit_char_of(n));
        assert(digits_val_of(d) == digits_val_of(d.drop_last()) * 10 + digit_val_of(d.last()));
        assert(digits_val_of(d) == n);
    } else {
        lemma_dec_digits(n / 10);
        let head = dec_digits_of(n / 10);
        let d = head.push(digit_char_of(n % 10));
        assert(d.drop_last() =~= head);
        assert(is_digit_char(digit_char_of(n % 10)));
        assert(digit_val_of(digit_char_of(n % 10)) == n % 10);
        assert(forall|i: int| 0 <= i < head.len() ==> d[i] == head[i]);
        assert(digits_val_of(d) == (n / 10) * 10 + n % 10);
        assert((n / 10) * 10 + n % 10 == n);
        assert(digits_val_of(dec_digits_of(n)) == n);
    }
}

/// Rendering an integer and reading the text back names the integer, and
/// the text holds no tab.
pub proof fn lemma_int_text_roundtrip(n: int)
    ensures
        is_int_text(int_text_of(n)),
        int_text_val(int_text_of(n)) == n,
        tab_free(int_text_of(n)),
{
    if n < 0 {
        lemma_dec_digits(-n);
        let t = int_text_of(n);
        assert(t == seq!['-'] + dec_digits_of(-n));
        assert(t[0] == '-');
        assert(t.skip(1) =~= dec_digits_of(-n));
        assert(forall|i: int| 0 <= i < t.len() ==> (t[i] == '-' || is_digit_char(#[trigger] t[i])));
    } else {
        lemma_dec_digits(n);
        let t = int_text_of(n);
        assert(t == dec_digits_of(n));
        assert(t[0] != '+' && t[0] != '-');
    }
}


/// Whether a character counts as whitespace (the Unicode White_Space
/// property), named for specifications; only the standard library decides
/// it.
pub uninterp spec fn is_space_char(c: char) -> bool;

/// Relies on `char::is_whitespace`: the Unicode White_Space property,
/// a function of the character alone. The facts stated are the documented
/// ones the text logic leans on: the four ASCII whitespace characters are
/// white, and letters and digits are not.
#[verifier::external_body]
pub fn is_whitespace_char(c: char) -> (r: bool)
    ensures
        r == is_space_char(c),
        c == '\n' ==> r,
        c == ' ' ==> r,
        c == '\t' ==> r,
        c == '\r' ==> r,
        '0' <= c <= '9' ==> !r,
        'a' <= c <= 'z' ==> !r,
        'A' <= c <= 'Z' ==> !r,
{
    c.is_whitespace()
}


/// Case-insensitive match of a character against a lowercase ASCII letter.
pub open spec fn matches_ci(c: char, lower: char) -> bool {
    c == lower || c as int == lower as int - 32
}

/// Case-insensitive match against a lowercase ASCII word.
pub open spec fn is_word_ci(s: Seq<char>, word: Seq<char>) -> bool {
    s.len() == word.len() && forall|i: int| 0 <= i < s.len() ==> matches_ci(s[i], #[trigger] word[i])
}

/// The first `.` at or after `from`, if any.
pub open spec fn first_dot(s: Seq<char>, from: int) -> Option<int>
    decreases s.len() - from,
{
    if from < 0 || from >= s.len() {
        None
    } else if s[from] == '.' {
        Some(from)
    } else {
        first_dot(s, from + 1)
    }
}

/// The first `e` or `E` at or after `from`, if any.
pub open spec fn first_exp(s: Seq<char>, from: int) -> Option<int>
    decreases s.len() - from,
{
    if from < 0 || from >= s.len() {
        None
    } else if s[from] == 'e' || s[from] == 'E' {
        Some(from)
    } else {
        first_exp(s, from + 1)
    }
}

/// A mantissa: decimal digits with at most one dot, and at least one digit.
pub open spec fn is_mantissa_text(m: Seq<char>) -> bool {
    match first_dot(m, 0) {
        None => m.len() >= 1 && all_digit_chars(m),
        Some(p) => all_digit_chars(m.take(p)) && all_digit_chars(m.skip(p + 1)) && m.len() >= 2,
    }
}

/// A number: a mantissa, optionally followed by `e`/`E` and a signed
/// exponent.
pub open spec fn is_num_text(b: Seq<char>) -> bool {
    match first_exp(b, 0) {
        None => is_mantissa_text(b),
        Some(k) => is_mantissa_text(b.take(k)) && is_int_text(b.skip(k + 1)),
    }
}

/// Whether `s` is what `str::parse` accepts for a floating-point type: an
/// optional sign, then `inf`, `infinity` or `nan` in any letter case, or a
/// decimal number with an optional fraction and exponent.
pub open spec fn is_float_text(s: Seq<char>) -> bool {
    let b = if s.len() > 0 && (s[0] == '+' || s[0] == '-') {
        s.skip(1)
    } else {
        s
    };
    ||| is_word_ci(b, seq!['i', 'n', 'f'])
    ||| is_word_ci(b, seq!['i', 'n', 'f', 'i', 'n', 'i', 't', 'y'])
    ||| is_word_ci(b, seq!['n', 'a', 'n'])
    ||| is_num_text(b)
}

/// Decides whether every character of `s` is a decimal digit.
fn all_digits_str(s: &str) -> (r: bool)
    ensures
        r == all_digit_chars(s@),
{
    let n = s.unicode_len();
    let mut i: usize = 0;
    while i < n
        invariant
            n == s@.len(),
            0 <= i <= n,
            forall|j: int| 0 <= j < i ==> is_digit_char(s@[j]),
        decreases n - i,
    {
        let c = s.get_char(i);
        if c < '0' || c > '9' {
            return false;
        }
        i = i + 1;
    }
    true
}

/// Decides whether `s` has the shape of an integer text.
fn is_int_text_str(s: &str) -> (r: bool)
    ensures
        r == is_int_text(s@),
{
    let n = s.unicode_len();
    if n == 0 {
        return false;
    }
    let c0 = s.get_char(0);
    if c0 == '+' || c0 == '-' {
        if n < 2 {
            return false;
        }
        let rest = s.substring_char(1, n);
        proof {
            assert(s@.subrange(1, n as int) =~= s@.skip(1));
        }
        all_digits_str(rest)
    } else {
        all_digits_str(s)
    }
}

/// Finds the first of `targets`' two characters in `s`, scanning by one
/// spec step per loop turn.
fn scan_dot(s: &str) -> (r: Option<usize>)
    ensures
        r matches Some(j) ==> first_dot(s@, 0) == Some(j as int),
        r is None ==> first_dot(s@, 0) is None,
{
    let n = s.unicode_len();
    let mut i: usize = 0;
    while i < n
        invariant
            n == s@.len(),
            0 <= i,
            first_dot(s@, 0) == first_dot(s@, i as int),
        decreases n - i,
    {
        if s.get_char(i) == '.' {
            return Some(i);
        }
        i = i + 1;
    }
    None
}

/// Finds the first `e` or `E` in `s`.
fn scan_exp(s: &str) -> (r: Option<usize>)
    ensures
        r matches Some(j) ==> first_exp(s@, 0) == Some(j as int),
        r is None ==> first_exp(s@, 0) is None,
{
    let n = s.unicode_len();
    let mut i: usize = 0;
    while i < n
        invariant
            n == s@.len(),
            0 <= i,
            first_exp(s@, 0) == first_exp(s@, i as int),
        decreases n - i,
    {
        let c = s.get_char(i);
        if c == 'e' || c == 'E' {
            return Some(i);
        }
        i = i + 1;
    }
    None
}

/// Decides whether `s` is a mantissa.
fn is_mantissa_str(m: &str) -> (r: bool)
    ensures
        r == is_mantissa_text(m@),
{
    let n = m.unicode_len();
    match scan_dot(m) {
        None => n >= 1 && all_digits_str(m),
        Some(p) => {
            proof {
                lemma_first_dot_props(m@, 0);
            }
            if n < 2 {
                return false;
            }
            let head = m.substring_char(0, p);
            let tail = m.substring_char(p + 1, n);
            proof {
                assert(m@.subrange(0, p as int) =~= m@.take(p as int));
                assert(m@.subrange(p + 1, n as int) =~= m@.skip(p + 1));
            }
            let h = all_digits_str(head);
            let t = all_digits_str(tail);
            h && t
        },
    }
}

/// Decides the case-insensitive match of `s` against a lowercase word.
fn is_word_ci_str(s: &str, word: &str) -> (r: bool)
    ensures
        r == is_word_ci(s@, word@),
{
    let n = s.unicode_len();
    if n != word.unicode_len() {
        return false;
    }
    let mut i: usize = 0;
    while i < n
        invariant
            n == s@.len() == word@.len(),
            0 <= i <= n,
            forall|j: int| 0 <= j < i ==> matches_ci(s@[j], #[trigger] word@[j]),
        decreases n - i,
    {
        let c = s.get_char(i);
        let w = word.get_char(i);
        let cv = c as u32;
        let wv = w as u32;
        if !(c == w || (wv >= 32 && cv == wv - 32)) {
            proof {
                assert(!matches_ci(s@[i as int], word@[i as int]));
            }
            return false;
        }
        i = i + 1;
    }
    true
}

/// Decides whether `s` has the shape of a floating-point text.
pub fn is_float_text_str(s: &str) -> (r: bool)
    ensures
        r == is_float_text(s@),
{
    proof {
        reveal_strlit("inf");
        reveal_strlit("infinity");
        reveal_strlit("nan");
        assert("inf"@ =~= seq!['i', 'n', 'f']);
        assert("infinity"@ =~= seq!['i', 'n', 'f', 'i', 'n', 'i', 't', 'y']);
        assert("nan"@ =~= seq!['n', 'a', 'n']);
    }
    let n = s.unicode_len();
    let mut b: &str = s;
    if n > 0 {
        let c0 = s.get_char(0);
        if c0 == '+' || c0 == '-' {
            b = s.substring_char(1, n);
            proof {
                assert(s@.subrange(1, n as int) =~= s@.skip(1));
            }
        }
    }
    if is_word_ci_str(b, "inf") || is_word_ci_str(b, "infinity") || is_word_ci_str(b, "nan") {
        return true;
    }
    let bn = b.unicode_len();
    match scan_exp(b) {
        None => is_mantissa_str(b),
        Some(k) => {
            proof {
                lemma_first_exp_props(b@, 0);
            }
            let head = b.substring_char(0, k);
            let tail = b.substring_char(k + 1, bn);
            proof {
                assert(b@.subrange(0, k as int) =~= b@.take(k as int));
                assert(b@.subrange(k + 1, bn as int) =~= b@.skip(k + 1));
            }
            let h = is_mantissa_str(head);
            let t = is_int_text_str(tail);
            h && t
        },
    }
}

/// A float text never holds a tab.
pub proof fn lemma_float_text_tab_free(s: Seq<char>)
    requires
        is_float_text(s),
    ensures
        tab_free(s),
{
    let b = if s.len() > 0 && (s[0] == '+' || s[0] == '-') {
        s.skip(1)
    } else {
        s
    };
    assert forall|i: int| 0 <= i < s.len() implies s[i] != '\t' by {
        if !(i == 0 && (s[0] == '+' || s[0] == '-')) {
            let j = if s.len() > 0 && (s[0] == '+' || s[0] == '-') {
                i - 1
            } else {
                i
            };
            assert(b[j] == s[i]);
            lemma_float_body_no_tab(b, j);
        }
    }
}

proof fn lemma_float_body_no_tab(b: Seq<char>, j: int)
    requires
        0 <= j < b.len(),
        is_word_ci(b, seq!['i', 'n', 'f']) || is_word_ci(b, seq!['i', 'n', 'f', 'i', 'n', 'i', 't', 'y'])
            || is_word_ci(b, seq!['n', 'a', 'n']) || is_num_text(b),
    ensures
        b[j] != '\t',
{
    if is_word_ci(b, seq!['i', 'n', 'f']) || is_word_ci(
        b,
        seq!['i', 'n', 'f', 'i', 'n', 'i', 't', 'y'],
    ) || is_word_ci(b, seq!['n', 'a', 'n']) {
    } else {
        match first_exp(b, 0) {
            None => {
                lemma_mantissa_no_tab(b, j);
            },
            Some(k) => {
                lemma_first_exp_props(b, 0);
                if j < k {
                    assert(b.take(k)[j] == b[j]);
                    lemma_mantissa_no_tab(b.take(k), j);
                } else if j == k {
                } else {
                    let t = b.skip(k + 1);
                    assert(t[j - k - 1] == b[j]);
                    lemma_int_text_no_tab(t, j - k - 1);
                }
            },
        }
    }
}

proof fn lemma_first_exp_props(s: Seq<char>, from: int)
    ensures
        first_exp(s, from) matches Some(k) ==> from <= k < s.len() && (s[k] == 'e' || s[k] == 'E'),
    decreases s.len() - from,
{
    if !(from < 0 || from >= s.len()) && s[from] != 'e' && s[from] != 'E' {
        lemma_first_exp_props(s, from + 1);
    }
}

proof fn lemma_first_dot_props(s: Seq<char>, from: int)
    ensures
        first_dot(s, from) matches Some(k) ==> from <= k < s.len() && s[k] == '.',
    decreases s.len() - from,
{
    if !(from < 0 || from >= s.len()) && s[from] != '.' {
        lemma_first_dot_props(s, from + 1);
    }
}

proof fn lemma_mantissa_no_tab(m: Seq<char>, j: int)
    requires
        0 <= j < m.len(),
        is_mantissa_text(m),
    ensures
        m[j] != '\t',
{
    lemma_first_dot_props(m, 0);
    match first_dot(m, 0) {
        None => {
            assert(is_digit_char(m[j]));
        },
        Some(p) => {
            if j < p {
                assert(m.take(p)[j] == m[j]);
                assert(is_digit_char(m.take(p)[j]));
            } else if j > p {
                assert(m.skip(p + 1)[j - p - 1] == m[j]);
                assert(is_digit_char(m.skip(p + 1)[j - p - 1]));
            }
        },
    }
}

proof fn lemma_int_text_no_tab(t: Seq<char>, j: int)
    requires
        0 <= j < t.len(),
        is_int_text(t),
    ensures
        t[j] != '\t',
{
    if j == 0 && (t[0] == '+' || t[0] == '-') {
    } else if t[0] == '+' || t[0] == '-' {
        assert(t.skip(1)[j - 1] == t[j]);
        assert(is_digit_char(t.skip(1)[j - 1]));
    } else {
        assert(is_digit_char(t[j]));
    }
}


/// Appending one more field extends the joined line by a tab and the
/// field.
pub proof fn lemma_join_tabs_push(fields: Seq<Seq<char>>, x: Seq<char>)
    requires
        fields.len() >= 1,
    ensures
        join_tabs(fields.push(x)) == join_tabs(fields) + seq!['\t'] + x,
    decreases fields.len(),
{
    if fields.len() == 1 {
        assert(fields.push(x)[0] == fields[0]);
        assert(fields.push(x).skip(1) =~= seq![x]);
        assert(join_tabs(fields.push(x)) == fields[0] + seq!['\t'] + join_tabs(seq![x]));
    } else {
        lemma_join_tabs_push(fields.skip(1), x);
        assert(fields.push(x).skip(1) =~= fields.skip(1).push(x));
        assert(fields.push(x)[0] == fields[0]);
        assert(join_tabs(fields.push(x)) == fields[0] + seq!['\t'] + join_tabs(
            fields.skip(1).push(x),
        ));
        assert(fields[0] + seq!['\t'] + (join_tabs(fields.skip(1)) + seq!['\t'] + x) =~= (fields[0]
            + seq!['\t'] + join_tabs(fields.skip(1))) + seq!['\t'] + x);
    }
}


} // verus!
