//! Character-level text helpers: decimal integers, whitespace trimming,
//! separators and case mapping, each with its specification.
use vstd::prelude::*;
use vstd::string::*;

verus! {

// ---------------------------------------------------------------------------
// Specifications
// ---------------------------------------------------------------------------

pub open spec fn is_ascii_digit(c: char) -> bool {
    '0' <= c && c <= '9'
}

pub open spec fn digit_value(c: char) -> int {
    c as int - '0' as int
}

pub open spec fn digit_char(d: int) -> char {
    (d + 48) as char
}

/// Decimal digits of a natural number, most significant first, without leading zeros.
pub open spec fn decimal_digits(n: nat) -> Seq<char>
    decreases n,
{
    if n < 10 {
        seq![digit_char(n as int)]
    } else {
        decimal_digits(n / 10).push(digit_char((n % 10) as int))
    }
}

/// The decimal text of an integer, with a leading `-` when it is negative.
pub open spec fn decimal_text(n: int) -> Seq<char> {
    if n < 0 {
        seq!['-'] + decimal_digits((-n) as nat)
    } else {
        decimal_digits(n as nat)
    }
}

pub open spec fn all_digits(s: Seq<char>) -> bool {
    forall|i: int| 0 <= i < s.len() ==> is_ascii_digit(#[trigger] s[i])
}

/// The value of a sequence of decimal digits read most significant first.
pub open spec fn digits_value(s: Seq<char>) -> int
    decreases s.len(),
{
    if s.len() == 0 {
        0
    } else {
        digits_value(s.drop_last()) * 10 + digit_value(s.last())
    }
}

/// The characters after an optional leading sign.
pub open spec fn unsigned_body(s: Seq<char>) -> Seq<char> {
    if s.len() > 0 && (s[0] == '-' || s[0] == '+') {
        s.drop_first()
    } else {
        s
    }
}

/// What `str::parse::<i64>` returns: an optional `+` or `-`, then at least one
/// ASCII digit and nothing else, with a value in the range of `i64`.
pub open spec fn parse_i64_spec(s: Seq<char>) -> Option<i64> {
    let body = unsigned_body(s);
    let value = if s.len() > 0 && s[0] == '-' {
        -digits_value(body)
    } else {
        digits_value(body)
    };
    if body.len() > 0 && all_digits(body) && i64::MIN <= value <= i64::MAX {
        Some(value as i64)
    } else {
        None
    }
}

/// What `str::parse::<usize>` returns: an optional `+`, then at least one
/// ASCII digit and nothing else, with a value in the range of `usize`.
pub open spec fn parse_usize_spec(s: Seq<char>) -> Option<usize> {
    let body = if s.len() > 0 && s[0] == '+' {
        s.drop_first()
    } else {
        s
    };
    if body.len() > 0 && all_digits(body) && digits_value(body) <= usize::MAX {
        Some(digits_value(body) as usize)
    } else {
        None
    }
}

/// `char::is_whitespace`: the Unicode `White_Space` property.
pub open spec fn is_whitespace(c: char) -> bool {
    let v = c as int;
    ||| 0x09 <= v <= 0x0d
    ||| v == 0x20
    ||| v == 0x85
    ||| v == 0xa0
    ||| v == 0x1680
    ||| 0x2000 <= v <= 0x200a
    ||| v == 0x2028
    ||| v == 0x2029
    ||| v == 0x202f
    ||| v == 0x205f
    ||| v == 0x3000
}

pub open spec fn trim_start_spec(s: Seq<char>) -> Seq<char>
    decreases s.len(),
{
    if s.len() > 0 && is_whitespace(s[0]) {
        trim_start_spec(s.drop_first())
    } else {
        s
    }
}

pub open spec fn trim_end_spec(s: Seq<char>) -> Seq<char>
    decreases s.len(),
{
    if s.len() > 0 && is_whitespace(s.last()) {
        trim_end_spec(s.drop_last())
    } else {
        s
    }
}

/// `str::trim`: leading and trailing whitespace removed.
pub open spec fn trim_spec(s: Seq<char>) -> Seq<char> {
    trim_end_spec(trim_start_spec(s))
}

/// The part of `s` after the last occurrence of `sep`, or all of `s` when it has none:
/// the first item of `s.rsplit(sep)`.
pub open spec fn after_last(s: Seq<char>, sep: char) -> Seq<char>
    decreases s.len(),
{
    if s.len() == 0 {
        s
    } else if s.last() == sep {
        Seq::empty()
    } else {
        after_last(s.drop_last(), sep).push(s.last())
    }
}

/// `s` with every trailing `c` removed (`str::trim_end_matches` with a character).
pub open spec fn trim_end_char(s: Seq<char>, c: char) -> Seq<char>
    decreases s.len(),
{
    if s.len() > 0 && s.last() == c {
        trim_end_char(s.drop_last(), c)
    } else {
        s
    }
}

/// Some string of `v` has the characters `t`.
pub open spec fn has_text(v: Seq<String>, t: Seq<char>) -> bool {
    exists|k: int| 0 <= k < v.len() && #[trigger] v[k]@ == t
}

/// No two strings of `v` have the same characters.
pub open spec fn texts_distinct(v: Seq<String>) -> bool {
    forall|a: int, b: int| 0 <= a < b < v.len() ==> v[a]@ != v[b]@
}

/// `a` comes before `b` in the order of `String`'s `Ord`: lexicographic by
/// code point, a proper prefix first.
pub open spec fn text_less(a: Seq<char>, b: Seq<char>) -> bool
    decreases a.len(),
{
    if a.len() == 0 {
        b.len() > 0
    } else if b.len() == 0 {
        false
    } else if a[0] != b[0] {
        a[0] < b[0]
    } else {
        text_less(a.drop_first(), b.drop_first())
    }
}

/// The strings are in strictly ascending order.
pub open spec fn ascending(v: Seq<String>) -> bool {
    forall|i: int, j: int| 0 <= i < j < v.len() ==> text_less(#[trigger] v[i]@, #[trigger] v[j]@)
}

/// What `str::to_lowercase` returns.
pub uninterp spec fn lowercase(s: Seq<char>) -> Seq<char>;

/// What `str::to_uppercase` returns.
pub uninterp spec fn uppercase(s: Seq<char>) -> Seq<char>;

// ---------------------------------------------------------------------------
// Lemmas
// ---------------------------------------------------------------------------

pub proof fn lemma_digits_value_nonneg(s: Seq<char>)
    requires
        all_digits(s),
    ensures
        digits_value(s) >= 0,
    decreases s.len(),
{
    if s.len() > 0 {
        assert(all_digits(s.drop_last()));
        assert(is_ascii_digit(s[s.len() - 1]));
        lemma_digits_value_nonneg(s.drop_last());
    }
}

/// A prefix of a digit sequence never has a larger value than the whole.
pub proof fn lemma_digits_value_prefix(s: Seq<char>, i: int)
    requires
        all_digits(s),
        0 <= i <= s.len(),
    ensures
        digits_value(s.subrange(0, i)) <= digits_value(s),
    decreases s.len(),
{
    if i < s.len() {
        assert(all_digits(s.drop_last()));
        lemma_digits_value_prefix(s.drop_last(), i);
        assert(s.drop_last().subrange(0, i) =~= s.subrange(0, i));
        assert(is_ascii_digit(s[s.len() - 1]));
        lemma_digits_value_nonneg(s.drop_last());
    } else {
        assert(s.subrange(0, i) =~= s);
    }
}

pub proof fn lemma_digits_value_push(s: Seq<char>, c: char)
    ensures
        digits_value(s.push(c)) == digits_value(s) * 10 + digit_value(c),
{
    assert(s.push(c).drop_last() =~= s);
}

pub proof fn lemma_digit_char_value(d: int)
    requires
        0 <= d < 10,
    ensures
        is_ascii_digit(digit_char(d)),
        digit_value(digit_char(d)) == d,
{
}

pub proof fn lemma_decimal_digits_are_digits(n: nat)
    ensures
        all_digits(decimal_digits(n)),
        decimal_digits(n).len() > 0,
        digits_value(decimal_digits(n)) == n,
        n > 0 ==> decimal_digits(n)[0] != '0',
    decreases n,
{
    lemma_digit_char_value((n % 10) as int);
    if n < 10 {
        assert(decimal_digits(n).drop_last() =~= Seq::<char>::empty());
        assert(digits_value(Seq::<char>::empty()) == 0);
    } else {
        assert((n / 10) * 10 + n % 10 == n);
        lemma_decimal_digits_are_digits(n / 10);
        let d = decimal_digits(n / 10);
        lemma_digits_value_push(d, digit_char((n % 10) as int));
        assert forall|i: int| 0 <= i < decimal_digits(n).len() implies is_ascii_digit(
            #[trigger] decimal_digits(n)[i],
        ) by {
            if i < d.len() {
                assert(decimal_digits(n)[i] == d[i]);
            }
        }
    }
}

/// Reading back the decimal text of an `i64` gives the number again.
pub proof fn lemma_parse_decimal_text(n: i64)
    ensures
        parse_i64_spec(decimal_text(n as int)) == Some(n),
{
    let t = decimal_text(n as int);
    if n < 0 {
        lemma_decimal_digits_are_digits((-n) as nat);
        assert(unsigned_body(t) =~= decimal_digits((-n) as nat));
    } else {
        lemma_decimal_digits_are_digits(n as nat);
        assert(unsigned_body(t) =~= decimal_digits(n as nat));
    }
}

/// Distinct numbers have distinct decimal texts.
pub proof fn lemma_decimal_text_injective(a: i64, b: i64)
    ensures
        decimal_text(a as int) == decimal_text(b as int) ==> a == b,
{
    lemma_parse_decimal_text(a);
    lemma_parse_decimal_text(b);
}

pub proof fn lemma_decimal_text_has_no(n: int, c: char)
    requires
        !is_ascii_digit(c),
        c != '-',
    ensures
        !decimal_text(n).contains(c),
{
    if n < 0 {
        lemma_decimal_digits_are_digits((-n) as nat);
        let t = decimal_text(n);
        assert forall|i: int| 0 <= i < t.len() implies t[i] != c by {
            if i > 0 {
                assert(t[i] == decimal_digits((-n) as nat)[i - 1]);
            }
        }
    } else {
        lemma_decimal_digits_are_digits(n as nat);
        let t = decimal_text(n);
        assert forall|i: int| 0 <= i < t.len() implies t[i] != c by {
            assert(is_ascii_digit(t[i]));
        }
    }
}

pub proof fn lemma_nonneg_decimal_text_has_no(n: int, c: char)
    requires
        n >= 0,
        !is_ascii_digit(c),
    ensures
        !decimal_text(n).contains(c),
{
    lemma_decimal_digits_are_digits(n as nat);
    let t = decimal_text(n);
    assert forall|i: int| 0 <= i < t.len() implies t[i] != c by {
        assert(is_ascii_digit(t[i]));
    }
}

/// When `sep` does not occur in `b`, the part of `a + [sep] + b` after the last `sep` is `b`.
pub proof fn lemma_after_last_concat(a: Seq<char>, sep: char, b: Seq<char>)
    requires
        !b.contains(sep),
    ensures
        after_last(a.push(sep) + b, sep) == b,
    decreases b.len(),
{
    if b.len() == 0 {
        assert(a.push(sep) + b =~= a.push(sep));
    } else {
        let s = a.push(sep) + b;
        assert(s.drop_last() =~= a.push(sep) + b.drop_last());
        assert(!b.drop_last().contains(sep)) by {
            if b.drop_last().contains(sep) {
                let i = choose|i: int| 0 <= i < b.drop_last().len() && b.drop_last()[i] == sep;
                assert(b[i] == sep);
            }
        }
        assert(s.last() == b.last());
        assert(b.last() != sep) by {
            assert(b[b.len() - 1] == b.last());
        }
        lemma_after_last_concat(a, sep, b.drop_last());
        assert(b.drop_last().push(b.last()) =~= b);
    }
}

/// The order on texts is a strict total order.
pub proof fn lemma_text_less_order(a: Seq<char>, b: Seq<char>, c: Seq<char>)
    ensures
        !text_less(a, a),
        text_less(a, b) ==> !text_less(b, a),
        text_less(a, b) && text_less(b, c) ==> text_less(a, c),
        a != b ==> text_less(a, b) || text_less(b, a),
    decreases a.len(),
{
    if a.len() > 0 {
        lemma_text_less_order(a.drop_first(), b.drop_first(), c.drop_first());
        if b.len() > 0 && a[0] == b[0] && a.drop_first() == b.drop_first() {
            assert(a =~= seq![a[0]] + a.drop_first());
            assert(b =~= seq![b[0]] + b.drop_first());
        }
    }
    if a.len() == 0 && b.len() == 0 {
        assert(a =~= b);
    }
}

/// Strictly ascending strings are distinct.
pub proof fn lemma_ascending_distinct(v: Seq<String>)
    requires
        ascending(v),
    ensures
        texts_distinct(v),
{
    assert forall|a: int, b: int| 0 <= a < b < v.len() implies v[a]@ != v[b]@ by {
        lemma_text_less_order(v[a]@, v[b]@, v[b]@);
    }
}

// ---------------------------------------------------------------------------
// Executable functions
// ---------------------------------------------------------------------------

/// Appends one character to a string (`String::push`).
#[verifier::external_body]
pub(crate) fn push_char(s: &mut String, c: char)
    ensures
        final(s)@ == old(s)@.push(c),
{
    s.push(c);
}

/// Lowercases a string with `str::to_lowercase`.
#[verifier::external_body]
pub(crate) fn to_lowercase(s: &str) -> (res: String)
    ensures
        res@ == lowercase(s@),
{
    s.to_lowercase()
}

/// Uppercases a string with `str::to_uppercase`.
#[verifier::external_body]
pub(crate) fn to_uppercase(s: &str) -> (res: String)
    ensures
        res@ == uppercase(s@),
{
    s.to_uppercase()
}

/// The characters of a string slice, in order.
pub fn chars_of(s: &str) -> (res: Vec<char>)
    ensures
        res@ == s@,
{
    let n = s.unicode_len();
    let mut out: Vec<char> = Vec::new();
    let mut i: usize = 0;
    while i < n
        invariant
            n == s@.len(),
            i <= n,
            out@ == s@.subrange(0, i as int),
        decreases n - i,
    {
        let c = s.get_char(i);
        out.push(c);
        i = i + 1;
        assert(out@ =~= s@.subrange(0, i as int));
    }
    assert(out@ =~= s@);
    out
}

/// A string made of `chars[from..to]`.
pub fn string_from_chars(chars: &Vec<char>, from: usize, to: usize) -> (res: String)
    requires
        from <= to <= chars.len(),
    ensures
        res@ == chars@.subrange(from as int, to as int),
{
    let mut out = String::new();
    let mut i = from;
    while i < to
        invariant
            from <= i <= to <= chars.len(),
            out@ == chars@.subrange(from as int, i as int),
        decreases to - i,
    {
        push_char(&mut out, chars[i]);
        i = i + 1;
        assert(out@ =~= chars@.subrange(from as int, i as int));
    }
    out
}

/// Appends all characters of `tail` to `s`.
pub fn push_str(s: &mut String, tail: &str)
    ensures
        final(s)@ == old(s)@ + tail@,
{
    let chars = chars_of(tail);
    let mut i: usize = 0;
    while i < chars.len()
        invariant
            i <= chars.len(),
            chars@ == tail@,
            s@ == old(s)@ + tail@.subrange(0, i as int),
        decreases chars.len() - i,
    {
        push_char(s, chars[i]);
        i = i + 1;
        assert(s@ =~= old(s)@ + tail@.subrange(0, i as int));
    }
    assert(tail@.subrange(0, i as int) =~= tail@);
}

/// Whether two string slices hold the same characters.
pub fn str_eq(a: &str, b: &str) -> (res: bool)
    ensures
        res == (a@ == b@),
{
    let x = a.to_owned();
    let y = b.to_owned();
    x == y
}

fn digit_of(d: u64) -> (c: char)
    requires
        d < 10,
    ensures
        c == digit_char(d as int),
{
    let b: u8 = 48u8 + d as u8;
    b as char
}

/// The decimal text of an integer (`i64::to_string`).
pub fn i64_to_text(n: i64) -> (res: String)
    ensures
        res@ == decimal_text(n as int),
{
    let magnitude: u64 = if n < 0 {
        ((-(n + 1)) as u64) + 1
    } else {
        n as u64
    };
    let mut rest: u64 = magnitude;
    let mut digits: Vec<char> = Vec::new();
    while rest >= 10
        invariant
            decimal_digits(magnitude as nat) == decimal_digits(rest as nat) + digits@,
        decreases rest,
    {
        let d = digit_of(rest % 10);
        let ghost before = digits@;
        digits.insert(0, d);
        assert(decimal_digits(rest as nat) == decimal_digits((rest / 10) as nat).push(d));
        assert(decimal_digits((rest / 10) as nat) + digits@ =~= decimal_digits(rest as nat)
            + before);
        rest = rest / 10;
    }
    let d = digit_of(rest);
    let ghost before = digits@;
    digits.insert(0, d);
    assert(digits@ =~= decimal_digits(rest as nat) + before);
    let mut out = String::new();
    if n < 0 {
        push_char(&mut out, '-');
    }
    let body = string_from_chars(&digits, 0, digits.len());
    assert(digits@.subrange(0, digits@.len() as int) =~= digits@);
    push_str(&mut out, body.as_str());
    if n < 0 {
        assert(out@ =~= seq!['-'] + decimal_digits((-n) as nat));
    } else {
        assert(out@ =~= decimal_digits(n as nat));
    }
    out
}

/// Reads the decimal digits `chars[from..]` as a number, giving up once the value
/// passes `cap`.
fn digits_at_most(chars: &Vec<char>, from: usize, cap: u64) -> (res: Option<u64>)
    requires
        from <= chars.len(),
        cap >= 9,
    ensures
        match res {
            Some(v) => {
                &&& all_digits(chars@.subrange(from as int, chars.len() as int))
                &&& v == digits_value(chars@.subrange(from as int, chars.len() as int))
                &&& v <= cap
            },
            None => !all_digits(chars@.subrange(from as int, chars.len() as int))
                || digits_value(chars@.subrange(from as int, chars.len() as int)) > cap,
        },
{
    let ghost body = chars@.subrange(from as int, chars.len() as int);
    let mut acc: u64 = 0;
    let mut i = from;
    while i < chars.len()
        invariant
            from <= i <= chars.len(),
            body == chars@.subrange(from as int, chars.len() as int),
            all_digits(body.subrange(0, i - from)),
            acc == digits_value(body.subrange(0, i - from)),
            acc <= cap,
            cap >= 9,
        decreases chars.len() - i,
    {
        let c = chars[i];
        if !('0' <= c && c <= '9') {
            assert(body[i - from] == c);
            return None;
        }
        let d = (c as u32 - '0' as u32) as u64;
        assert(d <= 9);
        assert(body.subrange(0, i - from + 1) =~= body.subrange(0, i - from).push(c));
        proof {
            lemma_digits_value_push(body.subrange(0, i - from), c);
        }
        if acc > (cap - d) / 10 {
            assert(acc * 10 + d > cap) by (nonlinear_arith)
                requires
                    acc > (cap - d) / 10,
                    d <= 9,
                    cap >= 9,
            ;
            proof {
                assert(all_digits(body.subrange(0, i - from + 1)));
                if all_digits(body) {
                    lemma_digits_value_prefix(body, i - from + 1);
                }
            }
            return None;
        }
        acc = acc * 10 + d;
        i = i + 1;
    }
    assert(body.subrange(0, i - from) =~= body);
    Some(acc)
}

/// Parses a string as an `i64` exactly as `str::parse::<i64>` does.
pub fn parse_i64(s: &str) -> (res: Option<i64>)
    ensures
        res == parse_i64_spec(s@),
{
    let chars = chars_of(s);
    let n = chars.len();
    let negative = n > 0 && chars[0] == '-';
    let start: usize = if n > 0 && (chars[0] == '-' || chars[0] == '+') {
        1
    } else {
        0
    };
    assert(unsigned_body(s@) =~= chars@.subrange(start as int, n as int));
    if start == n {
        return None;
    }
    let cap: u64 = if negative {
        9223372036854775808u64
    } else {
        9223372036854775807u64
    };
    match digits_at_most(&chars, start, cap) {
        None => None,
        Some(v) => {
            if negative {
                if v == 9223372036854775808u64 {
                    Some(i64::MIN)
                } else {
                    Some(-(v as i64))
                }
            } else {
                Some(v as i64)
            }
        },
    }
}

/// Parses a string as a `usize` exactly as `str::parse::<usize>` does.
pub fn parse_usize(s: &str) -> (res: Option<usize>)
    ensures
        res == parse_usize_spec(s@),
{
    let chars = chars_of(s);
    let n = chars.len();
    let start: usize = if n > 0 && chars[0] == '+' {
        1
    } else {
        0
    };
    if start == 1 {
        assert(s@.drop_first() =~= chars@.subrange(1, n as int));
    } else {
        assert(s@ =~= chars@.subrange(0, n as int));
    }
    if start == n {
        return None;
    }
    let cap: u64 = usize::MAX as u64;
    match digits_at_most(&chars, start, cap) {
        None => None,
        Some(v) => Some(v as usize),
    }
}

/// `str::trim`: the text without leading and trailing whitespace.
pub fn trim(s: &str) -> (res: String)
    ensures
        res@ == trim_spec(s@),
{
    let chars = chars_of(s);
    let n = chars.len();
    let mut i: usize = 0;
    assert(chars@.subrange(0, n as int) =~= s@);
    while i < n && is_whitespace_char(chars[i])
        invariant
            i <= n == chars.len(),
            chars@ == s@,
            trim_start_spec(s@) == trim_start_spec(chars@.subrange(i as int, n as int)),
        decreases n - i,
    {
        let ghost t = chars@.subrange(i as int, n as int);
        assert(t.drop_first() =~= chars@.subrange(i + 1, n as int));
        i = i + 1;
    }
    assert(trim_start_spec(chars@.subrange(i as int, n as int)) == chars@.subrange(i as int, n as int));
    let mut j: usize = n;
    while j > i && is_whitespace_char(chars[j - 1])
        invariant
            i <= j <= n == chars.len(),
            chars@ == s@,
            trim_spec(s@) == trim_end_spec(chars@.subrange(i as int, j as int)),
        decreases j,
    {
        let ghost t = chars@.subrange(i as int, j as int);
        assert(t.drop_last() =~= chars@.subrange(i as int, j - 1));
        j = j - 1;
    }
    string_from_chars(&chars, i, j)
}

/// `char::is_whitespace`.
pub fn is_whitespace_char(c: char) -> (res: bool)
    ensures
        res == is_whitespace(c),
{
    let v = c as u32;
    (0x09 <= v && v <= 0x0d) || v == 0x20 || v == 0x85 || v == 0xa0 || v == 0x1680 || (0x2000
        <= v && v <= 0x200a) || v == 0x2028 || v == 0x2029 || v == 0x202f || v == 0x205f || v
        == 0x3000
}

/// The text after the last `sep` in `s` (all of `s` when `sep` does not occur).
pub fn text_after_last(s: &str, sep: char) -> (res: String)
    ensures
        res@ == after_last(s@, sep),
{
    let chars = chars_of(s);
    let n = chars.len();
    let mut i: usize = n;
    assert(chars@.subrange(0, n as int) =~= s@);
    assert(after_last(s@, sep) + chars@.subrange(n as int, n as int) =~= after_last(s@, sep));
    while i > 0 && chars[i - 1] != sep
        invariant
            i <= n == chars.len(),
            chars@ == s@,
            after_last(s@, sep) == after_last(chars@.subrange(0, i as int), sep) + chars@.subrange(
                i as int,
                n as int,
            ),
        decreases i,
    {
        let ghost p = chars@.subrange(0, i as int);
        assert(p.drop_last() =~= chars@.subrange(0, i - 1));
        assert(after_last(chars@.subrange(0, i - 1), sep) + chars@.subrange(i - 1, n as int)
            =~= after_last(chars@.subrange(0, i - 1), sep).push(chars@[i - 1]) + chars@.subrange(
            i as int,
            n as int,
        ));
        i = i - 1;
    }
    if i > 0 {
        assert(chars@.subrange(0, i as int).last() == sep);
    } else {
        assert(chars@.subrange(0, 0) =~= Seq::<char>::empty());
    }
    assert(after_last(chars@.subrange(0, i as int), sep) =~= Seq::<char>::empty());
    assert(after_last(s@, sep) =~= chars@.subrange(i as int, n as int));
    string_from_chars(&chars, i, n)
}

/// `s` without its trailing `c` characters (`str::trim_end_matches`).
pub fn trim_end_matching(s: &str, c: char) -> (res: String)
    ensures
        res@ == trim_end_char(s@, c),
{
    let chars = chars_of(s);
    let n = chars.len();
    let mut j: usize = n;
    assert(chars@.subrange(0, n as int) =~= s@);
    while j > 0 && chars[j - 1] == c
        invariant
            j <= n == chars.len(),
            chars@ == s@,
            trim_end_char(s@, c) == trim_end_char(chars@.subrange(0, j as int), c),
        decreases j,
    {
        assert(chars@.subrange(0, j as int).drop_last() =~= chars@.subrange(0, j - 1));
        j = j - 1;
    }
    string_from_chars(&chars, 0, j)
}

/// Whether `a` sorts before `b` as `String`s compare.
pub fn text_less_than(a: &str, b: &str) -> (res: bool)
    ensures
        res == text_less(a@, b@),
{
    let ca = chars_of(a);
    let cb = chars_of(b);
    let la = ca.len();
    let lb = cb.len();
    let mut i: usize = 0;
    assert(a@.subrange(0, la as int) =~= a@);
    assert(b@.subrange(0, lb as int) =~= b@);
    while i < la && i < lb && ca[i] == cb[i]
        invariant
            i <= la == ca.len(),
            i <= lb == cb.len(),
            ca@ == a@,
            cb@ == b@,
            text_less(a@, b@) == text_less(a@.subrange(i as int, la as int), b@.subrange(i as int, lb as int)),
        decreases la - i,
    {
        assert(a@.subrange(i as int, la as int).drop_first() =~= a@.subrange(i + 1, la as int));
        assert(b@.subrange(i as int, lb as int).drop_first() =~= b@.subrange(i + 1, lb as int));
        i = i + 1;
    }
    if i == la {
        i < lb
    } else if i == lb {
        false
    } else {
        assert(a@.subrange(i as int, la as int)[0] == ca@[i as int]);
        assert(b@.subrange(i as int, lb as int)[0] == cb@[i as int]);
        ca[i] < cb[i]
    }
}

/// The distinct strings of `v` in ascending order.
pub fn sorted_distinct(v: &Vec<String>) -> (res: Vec<String>)
    ensures
        ascending(res@),
        texts_distinct(res@),
        forall|t: Seq<char>| #[trigger] has_text(res@, t) <==> has_text(v@, t),
{
    let mut out: Vec<String> = Vec::new();
    let mut i: usize = 0;
    while i < v.len()
        invariant
            i <= v.len(),
            ascending(out@),
            forall|t: Seq<char>| #[trigger] has_text(out@, t) <==> has_text(v@.subrange(0, i as int), t),
        decreases v.len() - i,
    {
        let s = &v[i];
        let ghost before = out@;
        let mut p: usize = 0;
        while p < out.len() && text_less_than(out[p].as_str(), s.as_str())
            invariant
                p <= out.len(),
                out@ == before,
                forall|k: int| 0 <= k < p ==> text_less(#[trigger] out@[k]@, s@),
            decreases out.len() - p,
        {
            p = p + 1;
        }
        let present = p < out.len() && str_eq(out[p].as_str(), s.as_str());
        if !present {
            let c = s.clone();
            out.insert(p, c);
            proof {
                before.insert_ensures(p as int, c);
                assert(out@ == before.insert(p as int, c));
                assert forall|a: int, b: int| 0 <= a < b < out@.len() implies text_less(
                    #[trigger] out@[a]@,
                    #[trigger] out@[b]@,
                ) by {
                    if b < p {
                        assert(out@[a] == before[a] && out@[b] == before[b]);
                    } else if b == p {
                        assert(out@[a] == before[a]);
                    } else if a < p {
                        assert(out@[a] == before[a] && out@[b] == before[b - 1]);
                        lemma_text_less_order(before[a]@, s@, s@);
                        if p < before.len() {
                            lemma_text_less_order(before[p as int]@, s@, before[b - 1]@);
                            lemma_text_less_order(before[a]@, before[p as int]@, before[b - 1]@);
                        }
                    } else if a == p {
                        assert(out@[b] == before[b - 1]);
                        assert(p < before.len());
                        lemma_text_less_order(before[p as int]@, s@, s@);
                        lemma_text_less_order(s@, before[p as int]@, before[b - 1]@);
                        if b - 1 > p {
                            assert(text_less(before[p as int]@, before[b - 1]@));
                        }
                    } else {
                        assert(out@[a] == before[a - 1] && out@[b] == before[b - 1]);
                    }
                }
            }
        }
        proof {
            let pre = v@.subrange(0, i as int);
            let next = v@.subrange(0, i + 1);
            assert(next =~= pre.push(v@[i as int]));
            assert forall|t: Seq<char>| #[trigger] has_text(out@, t) <==> has_text(next, t) by {
                if has_text(next, t) {
                    let k = choose|k: int| 0 <= k < next.len() && #[trigger] next[k]@ == t;
                    if k < pre.len() {
                        assert(pre[k]@ == t);
                        assert(has_text(before, t));
                        let m = choose|m: int| 0 <= m < before.len() && #[trigger] before[m]@ == t;
                        if !present {
                            if m < p {
                                assert(out@[m] == before[m]);
                            } else {
                                assert(out@[m + 1] == before[m]);
                            }
                        }
                    } else {
                        if present {
                            assert(out@[p as int]@ == t);
                        } else {
                            assert(out@[p as int]@ == t);
                        }
                    }
                }
                if has_text(out@, t) {
                    let k = choose|k: int| 0 <= k < out@.len() && #[trigger] out@[k]@ == t;
                    if present {
                        assert(has_text(pre, t));
                        let m = choose|m: int| 0 <= m < pre.len() && #[trigger] pre[m]@ == t;
                        assert(next[m]@ == t);
                    } else if k == p {
                        assert(next[i as int]@ == t);
                    } else {
                        if k < p {
                            assert(before[k]@ == t);
                        } else {
                            assert(before[k - 1]@ == t);
                        }
                        assert(has_text(before, t));
                        assert(has_text(pre, t));
                        let m = choose|m: int| 0 <= m < pre.len() && #[trigger] pre[m]@ == t;
                        assert(next[m]@ == t);
                    }
                }
            }
        }
        i = i + 1;
    }
    assert(v@.subrange(0, v.len() as int) =~= v@);
    proof {
        lemma_ascending_distinct(out@);
    }
    out
}

} // verus!
