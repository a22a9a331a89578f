//! Character-level string helpers shared by the other modules: decimal
//! and hexadecimal rendering, Unicode whitespace, trimming, line splitting
//! and unsigned integer parsing, each with the behaviour that the standard
//! library gives the corresponding `str` method.

use vstd::prelude::*;
use vstd::std_specs::iter::IteratorSpec;

verus! {

/// Appends one character to a `String`: a trusted wrapper of std's
/// `String::push`, whose documentation says it appends the given `char`
/// to the end of the string; the contract claims exactly that.
#[verifier::external_body]
pub fn push_char(s: &mut String, c: char)
    ensures
        final(s)@ == old(s)@.push(c),
{
    s.push(c);
}

/// The characters of a string slice, in order.
pub fn chars_of(s: &str) -> (v: Vec<char>)
    ensures
        v@ == s@,
{
    broadcast use vstd::string::group_string_axioms;

    let n = s.unicode_len();
    let mut v: Vec<char> = Vec::new();
    let mut it = s.chars();
    let mut i: usize = 0;
    while i < n
        invariant
            n == s@.len(),
            i <= n,
            v@ == s@.subrange(0, i as int),
            it.obeys_prophetic_iter_laws(),
            it.remaining() == s@.subrange(i as int, n as int),
        decreases n - i,
    {
        let c = it.next();
        match c {
            Some(c) => {
                v.push(c);
            },
            None => {
                assert(false);
            },
        }
        i = i + 1;
        assert(v@ =~= s@.subrange(0, i as int));
        assert(it.remaining() =~= s@.subrange(i as int, n as int));
    }
    assert(v@ =~= s@);
    v
}

/// A `String` holding the characters of a slice of `v`, from `start` up to `end`.
pub fn string_from_range(v: &Vec<char>, start: usize, end: usize) -> (s: String)
    requires
        start <= end <= v.len(),
    ensures
        s@ == v@.subrange(start as int, end as int),
{
    let mut s = String::new();
    let mut i = start;
    while i < end
        invariant
            start <= i <= end <= v.len(),
            s@ == v@.subrange(start as int, i as int),
        decreases end - i,
    {
        push_char(&mut s, v[i]);
        i = i + 1;
        assert(s@ =~= v@.subrange(start as int, i as int));
    }
    s
}

/// A `String` holding exactly the characters of `v`.
pub fn string_from_chars(v: &Vec<char>) -> (s: String)
    ensures
        s@ == v@,
{
    let s = string_from_range(v, 0, v.len());
    assert(v@.subrange(0, v@.len() as int) =~= v@);
    s
}

/// Appends `t` to `s`.
pub fn push_str(s: &mut String, t: &str)
    ensures
        final(s)@ == old(s)@ + t@,
{
    s.append(t);
}

/// Whether two string slices hold the same characters.
pub fn str_equal(a: &str, b: &str) -> (r: bool)
    ensures
        r == (a@ == b@),
{
    let va = chars_of(a);
    let vb = chars_of(b);
    if va.len() != vb.len() {
        return false;
    }
    let mut i: usize = 0;
    while i < va.len()
        invariant
            va@ == a@,
            vb@ == b@,
            va.len() == vb.len(),
            i <= va.len(),
            forall|k: int| 0 <= k < i ==> va@[k] == vb@[k],
        decreases va.len() - i,
    {
        if va[i] != vb[i] {
            return false;
        }
        i = i + 1;
    }
    assert(va@ =~= vb@);
    true
}

// ---------------------------------------------------------------------------
// Digits

/// The ASCII decimal digit for `d` (taken modulo 10).
pub open spec fn digit_char(d: nat) -> char {
    let m = d % 10;
    if m == 0 { '0' }
    else if m == 1 { '1' }
    else if m == 2 { '2' }
    else if m == 3 { '3' }
    else if m == 4 { '4' }
    else if m == 5 { '5' }
    else if m == 6 { '6' }
    else if m == 7 { '7' }
    else if m == 8 { '8' }
    else { '9' }
}

/// The lowercase hexadecimal digit for `d` (taken modulo 16).
pub open spec fn hex_digit_char(d: nat) -> char {
    let m = d % 16;
    if m < 10 { digit_char(m) }
    else if m == 10 { 'a' }
    else if m == 11 { 'b' }
    else if m == 12 { 'c' }
    else if m == 13 { 'd' }
    else if m == 14 { 'e' }
    else { 'f' }
}

/// Decimal rendering of a natural number, without leading zeros
/// (`"0"` for zero), as `format!("{}", n)` prints it.
pub open spec fn decimal(n: nat) -> Seq<char>
    decreases n,
{
    if n < 10 {
        seq![digit_char(n)]
    } else {
        decimal(n / 10).push(digit_char(n % 10))
    }
}

/// Decimal rendering of a signed integer, with a leading `-` when negative.
pub open spec fn decimal_int(n: int) -> Seq<char> {
    if n < 0 {
        seq!['-'] + decimal((-n) as nat)
    } else {
        decimal(n as nat)
    }
}

/// Lowercase hexadecimal rendering of a natural number, without leading
/// zeros, as `format!("{:x}", n)` prints it.
pub open spec fn hex(n: nat) -> Seq<char>
    decreases n,
{
    if n < 16 {
        seq![hex_digit_char(n)]
    } else {
        hex(n / 16).push(hex_digit_char(n % 16))
    }
}

fn digit_char_exec(d: u8) -> (c: char)
    requires
        d < 16,
    ensures
        c == hex_digit_char(d as nat),
        d < 10 ==> c == digit_char(d as nat),
{
    match d {
        0 => '0',
        1 => '1',
        2 => '2',
        3 => '3',
        4 => '4',
        5 => '5',
        6 => '6',
        7 => '7',
        8 => '8',
        9 => '9',
        10 => 'a',
        11 => 'b',
        12 => 'c',
        13 => 'd',
        14 => 'e',
        _ => 'f',
    }
}

/// `format!("{}", n)` for a `u128`.
pub fn decimal_u128(n: u128) -> (s: String)
    ensures
        s@ == decimal(n as nat),
{
    let mut rev: Vec<char> = Vec::new();
    let mut m: u128 = n;
    // digits of `n` taken from the right
    let ghost mut acc: Seq<char> = Seq::empty();
    while m >= 10
        invariant
            m <= n,
            decimal(n as nat) == decimal(m as nat) + acc,
            rev@ == acc.reverse(),
        decreases m,
    {
        let c = digit_char_exec((m % 10) as u8);
        proof {
            assert(decimal(m as nat) == decimal((m / 10) as nat).push(c));
            assert(decimal((m / 10) as nat).push(c) + acc =~= decimal((m / 10) as nat) + (seq![c] + acc));
            acc = seq![c] + acc;
        }
        rev.push(c);
        assert(rev@ =~= acc.reverse());
        m = m / 10;
    }
    let c = digit_char_exec(m as u8);
    proof {
        assert(decimal(m as nat) == seq![c]);
        acc = seq![c] + acc;
    }
    rev.push(c);
    assert(rev@ =~= acc.reverse());
    assert(acc == decimal(n as nat)) by {
        assert(decimal(n as nat) =~= acc);
    }
    let mut out = String::new();
    let mut i = rev.len();
    while i > 0
        invariant
            i <= rev.len(),
            rev@ == acc.reverse(),
            out@ == acc.subrange(0, (rev.len() - i) as int),
        decreases i,
    {
        i = i - 1;
        push_char(&mut out, rev[i]);
        assert(out@ =~= acc.subrange(0, (rev.len() - i) as int));
    }
    assert(out@ =~= acc);
    out
}

/// `format!("{}", n)` for a `usize`.
pub fn decimal_usize(n: usize) -> (s: String)
    ensures
        s@ == decimal(n as nat),
{
    decimal_u128(n as u128)
}

/// `format!("{}", n)` for an `i64`.
pub fn decimal_i64(n: i64) -> (s: String)
    ensures
        s@ == decimal_int(n as int),
{
    if n < 0 {
        let mag: u128 = (0i128 - (n as i128)) as u128;
        let digits = decimal_u128(mag);
        let mut s = String::new();
        push_char(&mut s, '-');
        s.append(digits.as_str());
        assert(s@ =~= seq!['-'] + decimal((-(n as int)) as nat));
        s
    } else {
        decimal_u128(n as u128)
    }
}

/// `format!("{:x}", n)` for a `u128`.
pub fn hex_u128(n: u128) -> (s: String)
    ensures
        s@ == hex(n as nat),
{
    let mut rev: Vec<char> = Vec::new();
    let mut m: u128 = n;
    let ghost mut acc: Seq<char> = Seq::empty();
    while m >= 16
        invariant
            m <= n,
            hex(n as nat) == hex(m as nat) + acc,
            rev@ == acc.reverse(),
        decreases m,
    {
        let c = digit_char_exec((m % 16) as u8);
        proof {
            assert(hex(m as nat) == hex((m / 16) as nat).push(c));
            assert(hex((m / 16) as nat).push(c) + acc =~= hex((m / 16) as nat) + (seq![c] + acc));
            acc = seq![c] + acc;
        }
        rev.push(c);
        assert(rev@ =~= acc.reverse());
        m = m / 16;
    }
    let c = digit_char_exec(m as u8);
    proof {
        assert(hex(m as nat) == seq![c]);
        acc = seq![c] + acc;
    }
    rev.push(c);
    assert(rev@ =~= acc.reverse());
    assert(acc == hex(n as nat)) by {
        assert(hex(n as nat) =~= acc);
    }
    let mut out = String::new();
    let mut i = rev.len();
    while i > 0
        invariant
            i <= rev.len(),
            rev@ == acc.reverse(),
            out@ == acc.subrange(0, (rev.len() - i) as int),
        decreases i,
    {
        i = i - 1;
        push_char(&mut out, rev[i]);
        assert(out@ =~= acc.subrange(0, (rev.len() - i) as int));
    }
    assert(out@ =~= acc);
    out
}


// ---------------------------------------------------------------------------
// Whitespace, trimming and lines

/// `char::is_whitespace`: the Unicode `White_Space` property.
pub open spec fn is_whitespace(c: char) -> bool {
    let u = c as u32;
    ||| 0x9 <= u <= 0xD
    ||| u == 0x20
    ||| u == 0x85
    ||| u == 0xA0
    ||| u == 0x1680
    ||| 0x2000 <= u <= 0x200A
    ||| u == 0x2028
    ||| u == 0x2029
    ||| u == 0x202F
    ||| u == 0x205F
    ||| u == 0x3000
}

/// `char::is_whitespace`.
pub fn is_whitespace_char(c: char) -> (r: bool)
    ensures
        r == is_whitespace(c),
{
    let u = c as u32;
    (0x9 <= u && u <= 0xD) || u == 0x20 || u == 0x85 || u == 0xA0 || u == 0x1680 || (0x2000 <= u
        && u <= 0x200A) || u == 0x2028 || u == 0x2029 || u == 0x202F || u == 0x205F || u == 0x3000
}

/// Whether `c` is an ASCII decimal digit.
pub open spec fn is_ascii_digit(c: char) -> bool {
    '0' <= c && c <= '9'
}

/// Index of the first character at or after `i` that is not whitespace
/// (the length of `s` when there is none).
pub open spec fn skip_whitespace_from(s: Seq<char>, i: int) -> int
    decreases s.len() - i,
{
    if i < 0 || i >= s.len() {
        s.len() as int
    } else if is_whitespace(s[i]) {
        skip_whitespace_from(s, i + 1)
    } else {
        i
    }
}

/// Index just past the last character of `s.take(end)` that is not
/// whitespace (zero when there is none).
pub open spec fn trim_end_index(s: Seq<char>, end: int) -> int
    decreases end,
{
    if end <= 0 {
        0
    } else if is_whitespace(s[end - 1]) {
        trim_end_index(s, end - 1)
    } else {
        end
    }
}

/// `str::trim`: `s` without leading and trailing whitespace.
pub open spec fn trim(s: Seq<char>) -> Seq<char> {
    let a = skip_whitespace_from(s, 0);
    let b = trim_end_index(s, s.len() as int);
    if a < b { s.subrange(a, b) } else { Seq::empty() }
}

/// Index of the first occurrence of `c` at or after `i`.
pub open spec fn find_char_from(s: Seq<char>, c: char, i: int) -> Option<int>
    decreases s.len() - i,
{
    if i < 0 || i >= s.len() {
        None
    } else if s[i] == c {
        Some(i)
    } else {
        find_char_from(s, c, i + 1)
    }
}

/// Index of the first occurrence of `c` in `s`.
pub open spec fn find_char(s: Seq<char>, c: char) -> Option<int> {
    find_char_from(s, c, 0)
}

/// `s` without one trailing carriage return.
pub open spec fn strip_cr(s: Seq<char>) -> Seq<char> {
    if s.len() > 0 && s.last() == '\r' { s.drop_last() } else { s }
}

/// `str::lines`: the lines of `s`, split at `\n`, each without its
/// `\n` or `\r\n` ending; a final empty line is not produced.
pub open spec fn lines(s: Seq<char>) -> Seq<Seq<char>>
    decreases s.len(),
{
    if s.len() == 0 {
        Seq::empty()
    } else {
        match find_char(s, '\n') {
            Some(p) => {
                proof {
                    lemma_find_char_from_bounds(s, '\n', 0);
                }
                seq![strip_cr(s.take(p))] + lines(s.skip(p + 1))
            },
            None => seq![s],
        }
    }
}

/// What the search for a character finds lies in the searched range and is that character; it finds one whenever there is one.
pub proof fn lemma_find_char_from_bounds(s: Seq<char>, c: char, i: int)
    requires
        0 <= i,
    ensures
        find_char_from(s, c, i) matches Some(p) ==> i <= p < s.len() && s[p] == c,
        forall|k: int| i <= k < s.len() && s[k] == c ==> find_char_from(s, c, i) is Some,
    decreases s.len() - i,
{
    if i < s.len() && s[i] != c {
        lemma_find_char_from_bounds(s, c, i + 1);
    }
}

/// `s.lines().next().unwrap_or("")`.
pub open spec fn first_line(s: Seq<char>) -> Seq<char> {
    match find_char(s, '\n') {
        Some(p) => strip_cr(s.take(p)),
        None => s,
    }
}

/// The first whitespace-separated word of `s` (`split_whitespace().next()`).
pub open spec fn first_word(s: Seq<char>) -> Option<Seq<char>> {
    let a = skip_whitespace_from(s, 0);
    if a >= s.len() {
        None
    } else {
        Some(s.subrange(a, word_end_from(s, a)))
    }
}

/// Index of the first whitespace character at or after `i`
/// (the length of `s` when there is none).
pub open spec fn word_end_from(s: Seq<char>, i: int) -> int
    decreases s.len() - i,
{
    if i < 0 || i >= s.len() {
        s.len() as int
    } else if is_whitespace(s[i]) {
        i
    } else {
        word_end_from(s, i + 1)
    }
}

/// Index of the first character at or after `i` that is not an ASCII digit.
pub open spec fn digits_end_from(s: Seq<char>, i: int) -> int
    decreases s.len() - i,
{
    if i < 0 || i >= s.len() {
        s.len() as int
    } else if is_ascii_digit(s[i]) {
        digits_end_from(s, i + 1)
    } else {
        i
    }
}

/// Index of the first occurrence of `pat` in `s` at or after `i`.
pub open spec fn find_from(s: Seq<char>, pat: Seq<char>, i: int) -> Option<int>
    decreases s.len() + 1 - i,
{
    if i < 0 || i + pat.len() > s.len() {
        None
    } else if s.subrange(i, i + pat.len()) == pat {
        Some(i)
    } else {
        find_from(s, pat, i + 1)
    }
}

/// `str::find` for a string pattern, counted in characters.
pub open spec fn find(s: Seq<char>, pat: Seq<char>) -> Option<int> {
    find_from(s, pat, 0)
}

/// Number of bytes of `c` in UTF-8.
pub open spec fn utf8_width(c: char) -> nat {
    let u = c as u32;
    if u < 0x80 { 1 } else if u < 0x800 { 2 } else if u < 0x10000 { 3 } else { 4 }
}

/// Number of bytes of `s` in UTF-8 (`str::len`).
pub open spec fn utf8_len(s: Seq<char>) -> nat
    decreases s.len(),
{
    if s.len() == 0 { 0 } else { utf8_len(s.drop_last()) + utf8_width(s.last()) }
}

// ---------------------------------------------------------------------------
// Unsigned parsing

/// The value of a string of decimal digits.
pub open spec fn digits_value(s: Seq<char>) -> nat
    decreases s.len(),
{
    if s.len() == 0 {
        0
    } else {
        digits_value(s.drop_last()) * 10 + ((s.last() as u32) - 48) as nat
    }
}

/// Whether every character of `s` is an ASCII digit.
pub open spec fn all_digits(s: Seq<char>) -> bool {
    forall|i: int| 0 <= i < s.len() ==> is_ascii_digit(#[trigger] s[i])
}

/// `str::parse::<u32>`: an optional `+`, then one or more ASCII digits
/// whose value fits in a `u32`.
pub open spec fn parse_u32(s: Seq<char>) -> Option<u32> {
    let b = if s.len() > 0 && s[0] == '+' { s.drop_first() } else { s };
    if b.len() > 0 && all_digits(b) && digits_value(b) <= u32::MAX {
        Some(digits_value(b) as u32)
    } else {
        None
    }
}

proof fn lemma_digits_value_prefix(s: Seq<char>, i: int)
    requires
        0 <= i <= s.len(),
        all_digits(s),
    ensures
        digits_value(s.take(i)) <= digits_value(s),
    decreases s.len() - i,
{
    if i < s.len() {
        assert(s.drop_last().take(i) =~= s.take(i));
        assert(all_digits(s.drop_last()));
        lemma_digits_value_prefix(s.drop_last(), i);
    } else {
        assert(s.take(i) =~= s);
    }
}

/// Parses `v[start..end]` as a `u32` the way `str::parse::<u32>` does.
pub fn parse_u32_range(v: &Vec<char>, start: usize, end: usize) -> (r: Option<u32>)
    requires
        start <= end <= v.len(),
    ensures
        r == parse_u32(v@.subrange(start as int, end as int)),
{
    let ghost s = v@.subrange(start as int, end as int);
    let mut a = start;
    if start < end && v[start] == '+' {
        a = start + 1;
    }
    let ghost b = v@.subrange(a as int, end as int);
    assert(b == (if s.len() > 0 && s[0] == '+' { s.drop_first() } else { s })) by {
        if start < end && v@[start as int] == '+' {
            assert(b =~= s.drop_first());
        } else {
            assert(b =~= s);
        }
    }
    if a == end {
        return None;
    }
    let mut val: u64 = 0;
    let mut i = a;
    while i < end
        invariant
            start <= a <= i <= end <= v.len(),
            b == v@.subrange(a as int, end as int),
            s == v@.subrange(start as int, end as int),
            b == (if s.len() > 0 && s[0] == '+' { s.drop_first() } else { s }),
            b.len() > 0,
            all_digits(b.take(i - a)),
            val == digits_value(b.take(i - a)),
            val <= u32::MAX,
        decreases end - i,
    {
        let c = v[i];
        if !('0' <= c && c <= '9') {
            assert(!all_digits(b)) by {
                assert(b[i - a] == c);
            }
            return None;
        }
        let d = (c as u32 - 48) as u64;
        assert(b.take(i - a + 1).drop_last() =~= b.take(i - a));
        assert(b.take(i - a + 1).last() == c);
        val = val * 10 + d;
        i = i + 1;
        assert(all_digits(b.take(i - a))) by {
            assert forall|k: int| 0 <= k < b.take(i - a).len() implies is_ascii_digit(
                #[trigger] b.take(i - a)[k],
            ) by {
                if k < i - a - 1 {
                    assert(b.take(i - a - 1)[k] == b.take(i - a)[k]);
                }
            }
        }
        if val > 0xffff_ffff {
            proof {
                if all_digits(b) {
                    lemma_digits_value_prefix(b, i - a);
                }
            }
            return None;
        }
    }
    assert(b.take(end - a) =~= b);
    Some(val as u32)
}


// ---------------------------------------------------------------------------
// Executable scanning over character vectors

/// Index of the first `c` in `v` at or after `from`.
pub fn find_char_in(v: &Vec<char>, c: char, from: usize) -> (r: Option<usize>)
    requires
        from <= v.len(),
    ensures
        match r {
            Some(p) => find_char_from(v@, c, from as int) == Some(p as int),
            None => find_char_from(v@, c, from as int) is None,
        },
{
    let mut i = from;
    while i < v.len()
        invariant
            from <= i <= v.len(),
            find_char_from(v@, c, from as int) == find_char_from(v@, c, i as int),
        decreases v.len() - i,
    {
        if v[i] == c {
            return Some(i);
        }
        i = i + 1;
    }
    None
}

/// Index of the first non-whitespace character of `v` at or after `from`.
pub fn skip_whitespace(v: &Vec<char>, from: usize) -> (r: usize)
    requires
        from <= v.len(),
    ensures
        r == skip_whitespace_from(v@, from as int),
        from <= r <= v.len(),
{
    let mut i = from;
    while i < v.len()
        invariant
            from <= i <= v.len(),
            skip_whitespace_from(v@, from as int) == skip_whitespace_from(v@, i as int),
        decreases v.len() - i,
    {
        if !is_whitespace_char(v[i]) {
            return i;
        }
        i = i + 1;
    }
    i
}

/// Index of the first whitespace character of `v` at or after `from`.
pub fn word_end(v: &Vec<char>, from: usize) -> (r: usize)
    requires
        from <= v.len(),
    ensures
        r == word_end_from(v@, from as int),
        from <= r <= v.len(),
{
    let mut i = from;
    while i < v.len()
        invariant
            from <= i <= v.len(),
            word_end_from(v@, from as int) == word_end_from(v@, i as int),
        decreases v.len() - i,
    {
        if is_whitespace_char(v[i]) {
            return i;
        }
        i = i + 1;
    }
    i
}

/// Index of the first character of `v` at or after `from` that is not an ASCII digit.
pub fn digits_end(v: &Vec<char>, from: usize) -> (r: usize)
    requires
        from <= v.len(),
    ensures
        r == digits_end_from(v@, from as int),
        from <= r <= v.len(),
{
    let mut i = from;
    while i < v.len()
        invariant
            from <= i <= v.len(),
            digits_end_from(v@, from as int) == digits_end_from(v@, i as int),
        decreases v.len() - i,
    {
        let c = v[i];
        if !('0' <= c && c <= '9') {
            return i;
        }
        i = i + 1;
    }
    i
}

/// Index just past the last non-whitespace character of `v.take(end)`.
pub fn trim_end_at(v: &Vec<char>, end: usize) -> (r: usize)
    requires
        end <= v.len(),
    ensures
        r == trim_end_index(v@, end as int),
        r <= end,
{
    let mut e = end;
    while e > 0
        invariant
            e <= end <= v.len(),
            trim_end_index(v@, end as int) == trim_end_index(v@, e as int),
        decreases e,
    {
        if !is_whitespace_char(v[e - 1]) {
            return e;
        }
        e = e - 1;
    }
    0
}

/// `str::trim` followed by `to_string`.
pub fn trim_str(s: &str) -> (r: String)
    ensures
        r@ == trim(s@),
{
    let v = chars_of(s);
    let a = skip_whitespace(&v, 0);
    let b = trim_end_at(&v, v.len());
    if a < b {
        string_from_range(&v, a, b)
    } else {
        String::new()
    }
}

/// `s.lines().next().unwrap_or("")` followed by `to_string`.
pub fn first_line_str(s: &str) -> (r: String)
    ensures
        r@ == first_line(s@),
{
    let v = chars_of(s);
    match find_char_in(&v, '\n', 0) {
        Some(p) => {
            proof {
                lemma_find_char_from_bounds(v@, '\n', 0);
            }
            if p > 0 && v[p - 1] == '\r' {
                let r = string_from_range(&v, 0, p - 1);
                assert(r@ =~= strip_cr(s@.take(p as int)));
                r
            } else {
                let r = string_from_range(&v, 0, p);
                assert(r@ =~= strip_cr(s@.take(p as int)));
                r
            }
        },
        None => {
            let r = string_from_range(&v, 0, v.len());
            assert(r@ =~= s@);
            r
        },
    }
}

/// Whether `v[i..i + pat.len()]` equals `pat`.
pub fn matches_at(v: &Vec<char>, pat: &Vec<char>, i: usize) -> (r: bool)
    requires
        i + pat.len() <= v.len(),
    ensures
        r == (v@.subrange(i as int, i + pat.len()) == pat@),
{
    let mut k: usize = 0;
    while k < pat.len()
        invariant
            i + pat.len() <= v.len(),
            k <= pat.len(),
            forall|j: int| 0 <= j < k ==> v@[i + j] == pat@[j],
        decreases pat.len() - k,
    {
        if v[i + k] != pat[k] {
            assert(v@.subrange(i as int, i + pat.len())[k as int] != pat@[k as int]);
            return false;
        }
        k = k + 1;
    }
    assert(v@.subrange(i as int, i + pat.len()) =~= pat@);
    true
}

/// Index of the first occurrence of `pat` in `v` at or after `from`.
pub fn find_in(v: &Vec<char>, pat: &Vec<char>, from: usize) -> (r: Option<usize>)
    requires
        from <= v.len(),
    ensures
        match r {
            Some(p) => find_from(v@, pat@, from as int) == Some(p as int) && p + pat.len() <= v.len(),
            None => find_from(v@, pat@, from as int) is None,
        },
{
    if pat.len() == 0 {
        assert(v@.subrange(from as int, from as int) =~= pat@);
        return Some(from);
    }
    if pat.len() > v.len() {
        return None;
    }
    let last = v.len() - pat.len();
    let mut i = from;
    while i <= last
        invariant
            from <= i,
            pat.len() >= 1,
            last + pat.len() == v.len(),
            find_from(v@, pat@, from as int) == find_from(v@, pat@, i as int),
        decreases last + 1 - i,
    {
        if matches_at(v, pat, i) {
            return Some(i);
        }
        i = i + 1;
    }
    None
}

/// Whether `s` takes more than `limit` bytes in UTF-8.
pub fn utf8_len_exceeds(v: &Vec<char>, limit: usize) -> (r: bool)
    ensures
        r == (utf8_len(v@) > limit),
{
    let mut total: usize = 0;
    let mut i: usize = 0;
    while i < v.len()
        invariant
            i <= v.len(),
            total == utf8_len(v@.take(i as int)),
            total <= limit,
        decreases v.len() - i,
    {
        let u = v[i] as u32;
        let w: usize = if u < 0x80 { 1 } else if u < 0x800 { 2 } else if u < 0x10000 { 3 } else { 4 };
        assert(v@.take(i + 1).drop_last() =~= v@.take(i as int));
        if w > limit - total {
            proof {
                lemma_utf8_len_prefix(v@, i + 1);
            }
            return true;
        }
        total = total + w;
        i = i + 1;
    }
    assert(v@.take(i as int) =~= v@);
    false
}

proof fn lemma_utf8_len_prefix(s: Seq<char>, i: int)
    requires
        0 <= i <= s.len(),
    ensures
        utf8_len(s.take(i)) <= utf8_len(s),
    decreases s.len() - i,
{
    if i < s.len() {
        assert(s.drop_last().take(i) =~= s.take(i));
        lemma_utf8_len_prefix(s.drop_last(), i);
    } else {
        assert(s.take(i) =~= s);
    }
}


/// A copy of `v[a..b]`.
pub fn subvec(v: &Vec<char>, a: usize, b: usize) -> (r: Vec<char>)
    requires
        a <= b <= v.len(),
    ensures
        r@ == v@.subrange(a as int, b as int),
{
    let mut r: Vec<char> = Vec::new();
    let mut i = a;
    while i < b
        invariant
            a <= i <= b <= v.len(),
            r@ == v@.subrange(a as int, i as int),
        decreases b - i,
    {
        r.push(v[i]);
        i = i + 1;
        assert(r@ =~= v@.subrange(a as int, i as int));
    }
    r
}

/// Shifting the start of a search: searching `s` from `a + i` finds what
/// searching `s.skip(a)` from `i` finds, moved by `a`.
pub proof fn lemma_find_char_from_skip(s: Seq<char>, c: char, a: int, i: int)
    requires
        0 <= a <= s.len(),
        0 <= i,
    ensures
        find_char_from(s, c, a + i) == (match find_char_from(s.skip(a), c, i) {
            Some(p) => Some(p + a),
            None => None::<int>,
        }),
    decreases s.len() - a - i,
{
    if a + i < s.len() && s[a + i] != c {
        lemma_find_char_from_skip(s, c, a, i + 1);
    }
}

/// `lines` of the text from `pos` on: the line that starts at `pos`, then
/// the lines after it.
pub proof fn lemma_lines_step(s: Seq<char>, pos: int)
    requires
        0 <= pos < s.len(),
    ensures
        match find_char_from(s, '\n', pos) {
            Some(p) => pos <= p < s.len() && lines(s.skip(pos)) == seq![strip_cr(s.subrange(pos, p))] + lines(s.skip(p + 1)),
            None => lines(s.skip(pos)) == seq![s.skip(pos)],
        },
{
    lemma_find_char_from_skip(s, '\n', pos, 0);
    lemma_find_char_from_bounds(s, '\n', pos);
    let t = s.skip(pos);
    match find_char_from(s, '\n', pos) {
        Some(p) => {
            assert(t.take(p - pos) =~= s.subrange(pos, p));
            assert(t.skip(p - pos + 1) =~= s.skip(p + 1));
        },
        None => {},
    }
}


/// What the search for a pattern finds is an occurrence of it at or after `i`.
pub proof fn lemma_find_from_bounds(s: Seq<char>, pat: Seq<char>, i: int)
    requires
        0 <= i,
    ensures
        find_from(s, pat, i) matches Some(p) ==> i <= p && p + pat.len() <= s.len() && s.subrange(p, p + pat.len()) == pat,
    decreases s.len() + 1 - i,
{
    if i + pat.len() <= s.len() && s.subrange(i, i + pat.len()) != pat {
        lemma_find_from_bounds(s, pat, i + 1);
    }
}


proof fn lemma_digit_char(m: nat)
    requires
        m < 10,
    ensures
        is_ascii_digit(digit_char(m)),
        (digit_char(m) as u32) - 48 == m,
{
}

/// Decimal text reads back as the number it renders: one or more ASCII
/// digits whose value is `n`.
pub proof fn lemma_decimal_digits(n: nat)
    ensures
        decimal(n).len() >= 1,
        all_digits(decimal(n)),
        digits_value(decimal(n)) == n,
    decreases n,
{
    lemma_digit_char(n % 10);
    if n < 10 {
        let d = decimal(n);
        assert(d.drop_last() =~= Seq::<char>::empty());
        assert(digits_value(d) == digits_value(d.drop_last()) * 10 + ((d.last() as u32) - 48) as nat);
    } else {
        lemma_decimal_digits(n / 10);
        let d = decimal(n);
        assert(d.drop_last() =~= decimal(n / 10));
        assert(d.last() == digit_char(n % 10));
        assert(digits_value(d) == digits_value(d.drop_last()) * 10 + ((d.last() as u32) - 48) as nat);
        assert(all_digits(d)) by {
            assert forall|i: int| 0 <= i < d.len() implies is_ascii_digit(#[trigger] d[i]) by {
                if i < d.len() - 1 {
                    assert(d[i] == decimal(n / 10)[i]);
                }
            }
        }
    }
}

/// `str::parse::<u32>` reads the decimal text of a `u32` back as that number.
pub proof fn lemma_parse_decimal(n: u32)
    ensures
        parse_u32(decimal(n as nat)) == Some(n),
{
    lemma_decimal_digits(n as nat);
    let d = decimal(n as nat);
    assert(is_ascii_digit(d[0]));
}

} // verus!
