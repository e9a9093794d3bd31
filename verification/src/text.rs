//! Character-level helpers shared by the chunk codec and the line protocol:
//! decimal numbers, splitting at a separator, whitespace trimming.

use vstd::prelude::*;

verus! {

/// Calls `String::push`. Trusted: the character is appended at the end.
#[verifier::external_body]
fn push_char(s: &mut String, c: char)
    ensures
        final(s)@ == old(s)@.push(c),
{
    s.push(c);
}

/// The string holding exactly `chars`.
pub fn string_from_chars(chars: &[char]) -> (s: String)
    ensures
        s@ == chars@,
{
    let mut s = String::new();
    let mut i: usize = 0;
    while i < chars.len()
        invariant
            i <= chars@.len(),
            s@ == chars@.take(i as int),
        decreases chars@.len() - i,
    {
        push_char(&mut s, chars[i]);
        i += 1;
        assert(s@ =~= chars@.take(i as int));
    }
    assert(chars@.take(chars@.len() as int) =~= chars@);
    s
}

/// Appends the characters of `s` to `out`.
pub fn push_str(out: &mut Vec<char>, s: &str)
    ensures
        final(out)@ == old(out)@ + s@,
{
    let cs = chars_of(s);
    let mut i: usize = 0;
    while i < cs.len()
        invariant
            i <= cs@.len(),
            cs@ == s@,
            out@ == old(out)@ + cs@.take(i as int),
        decreases cs@.len() - i,
    {
        out.push(cs[i]);
        i += 1;
        assert(out@ =~= old(out)@ + cs@.take(i as int));
    }
    assert(cs@.take(i as int) =~= cs@);
}

/// The characters of `s`, in order.
pub fn chars_of(s: &str) -> (v: Vec<char>)
    ensures
        v@ == s@,
{
    let mut v: Vec<char> = Vec::new();
    for c in it: s.chars()
        invariant
            v@ == it.seq().take(it.index()),
    {
        v.push(c);
    }
    v
}


// ---------------------------------------------------------------------------
// Decimal numbers

/// The character of a decimal digit.
pub open spec fn digit_char(d: nat) -> char
    recommends
        d < 10,
{
    (d + 48) as char
}

/// An ASCII decimal digit.
pub open spec fn is_digit(c: char) -> bool {
    '0' <= c && c <= '9'
}

/// The value of a decimal digit.
pub open spec fn digit_value(c: char) -> nat {
    (c as nat - 48) as nat
}

/// The decimal representation of `n`, without sign or leading zeros.
pub open spec fn decimal(n: nat) -> Seq<char>
    decreases n,
{
    if n < 10 {
        seq![digit_char(n)]
    } else {
        decimal(n / 10).push(digit_char(n % 10))
    }
}

/// The number a non-empty run of decimal digits stands for.
pub open spec fn digits_value(s: Seq<char>) -> nat
    decreases s.len(),
{
    if s.len() == 0 {
        0
    } else {
        digits_value(s.drop_last()) * 10 + digit_value(s.last())
    }
}

/// What `str::parse` gives for an unsigned integer, before the bound of the
/// type: an optional `+`, then one or more decimal digits and nothing else.
pub open spec fn parse_decimal(s: Seq<char>) -> Option<nat> {
    let digits = unsigned_digits(s);
    if digits.len() > 0 && all_digits(digits) {
        Some(digits_value(digits))
    } else {
        None
    }
}

/// The text after an optional leading `+`.
pub open spec fn unsigned_digits(s: Seq<char>) -> Seq<char> {
    if s.len() > 0 && s[0] == '+' {
        s.drop_first()
    } else {
        s
    }
}

/// Every character is a decimal digit.
pub open spec fn all_digits(s: Seq<char>) -> bool {
    forall|i: int| 0 <= i < s.len() ==> is_digit(#[trigger] s[i])
}

/// `str::parse::<usize>`: the number, where it is well formed and fits.
pub open spec fn parse_usize_spec(s: Seq<char>) -> Option<usize> {
    match parse_decimal(s) {
        Some(n) => if n <= usize::MAX { Some(n as usize) } else { None },
        None => None,
    }
}

/// `str::parse::<u64>`: the number, where it is well formed and fits.
pub open spec fn parse_u64_spec(s: Seq<char>) -> Option<u64> {
    match parse_decimal(s) {
        Some(n) => if n <= u64::MAX { Some(n as u64) } else { None },
        None => None,
    }
}

proof fn lemma_decimal_digits(n: nat)
    ensures
        decimal(n).len() > 0,
        forall|i: int| 0 <= i < decimal(n).len() ==> is_digit(#[trigger] decimal(n)[i]),
        digits_value(decimal(n)) == n,
    decreases n,
{
    lemma_digit_char(n % 10);
    let d = decimal(n);
    if n >= 10 {
        lemma_decimal_digits(n / 10);
        assert(d.drop_last() =~= decimal(n / 10));
        assert(d.last() == digit_char(n % 10));
        assert(n == (n / 10) * 10 + n % 10) by (nonlinear_arith);
        assert(digits_value(d) == digits_value(decimal(n / 10)) * 10 + n % 10);
    } else {
        assert(d.drop_last() =~= Seq::<char>::empty());
        assert(digits_value(d) == digits_value(d.drop_last()) * 10 + digit_value(d.last()));
    }
}

proof fn lemma_digit_char(d: nat)
    requires
        d < 10,
    ensures
        is_digit(digit_char(d)),
        digit_value(digit_char(d)) == d,
{
    assert((d + 48) as char as nat == d + 48);
}

/// A decimal representation is a non-empty run of digits.
pub proof fn lemma_decimal_all_digits(n: nat)
    ensures
        decimal(n).len() > 0,
        all_digits(decimal(n)),
{
    lemma_decimal_digits(n);
}

/// Reading back a decimal number gives the number.
pub proof fn lemma_parse_decimal(n: nat)
    ensures
        parse_decimal(decimal(n)) == Some(n),
{
    lemma_decimal_digits(n);
    assert(decimal(n)[0] != '+');
}

/// Appends the decimal digits of `n` to `out`.
pub fn push_decimal(out: &mut Vec<char>, n: u64)
    ensures
        final(out)@ == old(out)@ + decimal(n as nat),
{
    let mut digits: Vec<char> = Vec::new();
    let mut m: u64 = n;
    loop
        invariant_except_break
            m > 0 || n == 0,
            m <= n,
            decimal(n as nat) == decimal(m as nat) + digits@,
        ensures
            decimal(n as nat) == digits@,
        decreases m,
    {
        let d = m % 10;
        let c = ((d as u8) + 48) as char;
        assert(c == digit_char(d as nat));
        digits.insert(0, c);
        if m < 10 {
            assert(decimal(m as nat) =~= seq![c]);
            break;
        }
        proof {
            let ghost old_digits = digits@.drop_first();
            assert(decimal(m as nat) == decimal((m / 10) as nat).push(c));
            assert(decimal((m / 10) as nat).push(c) + old_digits =~= decimal((m / 10) as nat) + digits@);
        }
        m = m / 10;
    }
    let mut i: usize = 0;
    let ghost start = out@;
    while i < digits.len()
        invariant
            i <= digits@.len(),
            out@ == start + digits@.take(i as int),
        decreases digits@.len() - i,
    {
        out.push(digits[i]);
        i += 1;
        assert(out@ =~= start + digits@.take(i as int));
    }
    assert(digits@.take(digits@.len() as int) =~= digits@);
}

/// `n.to_string()`: the decimal representation.
pub fn format_decimal(n: u64) -> (s: String)
    ensures
        s@ == decimal(n as nat),
{
    let mut v: Vec<char> = Vec::new();
    push_decimal(&mut v, n);
    assert(v@ =~= decimal(n as nat));
    string_from_chars(v.as_slice())
}

/// `str::parse::<u64>` on the characters `s[start..end]`.
pub fn parse_u64(s: &[char], start: usize, end: usize) -> (r: Option<u64>)
    requires
        start <= end <= s@.len(),
    ensures
        r == parse_u64_spec(s@.subrange(start as int, end as int)),
{
    let ghost text = s@.subrange(start as int, end as int);
    if start == end {
        return None;
    }
    let mut i = start;
    if s[start] == '+' {
        i = start + 1;
        if i == end {
            return None;
        }
    }
    let ghost digits = s@.subrange(i as int, end as int);
    assert(digits =~= unsigned_digits(text));
    let first = i;
    let mut acc: u64 = 0;
    while i < end
        invariant
            first <= i <= end <= s@.len(),
            digits == s@.subrange(first as int, end as int),
            first < end,
            forall|j: int| first <= j < i ==> is_digit(#[trigger] s@[j]),
            acc as nat == digits_value(s@.subrange(first as int, i as int)),
            text == s@.subrange(start as int, end as int),
            digits == unsigned_digits(text),
        decreases end - i,
    {
        let c = s[i];
        if !('0' <= c && c <= '9') {
            assert(!is_digit(digits[i - first]));
            assert(!all_digits(digits));
            return None;
        }
        let d = (c as u64) - 48;
        assert(s@.subrange(first as int, i + 1).drop_last() =~= s@.subrange(first as int, i as int));
        match acc.checked_mul(10) {
            Some(t) => match t.checked_add(d) {
                Some(v) => {
                    acc = v;
                },
                None => {
                    proof {
                        lemma_digits_value_grows(digits, (i - first) as int);
                        assert(digits.take(i - first) =~= s@.subrange(first as int, i as int));
                        assert(digit_value(digits[i - first]) == d);
                        if parse_decimal(text) is Some {
                            assert(parse_decimal(text) == Some(digits_value(digits)));
                        }
                    }
                    return None;
                },
            },
            None => {
                proof {
                    lemma_digits_value_grows(digits, (i - first) as int);
                    assert(digits.take(i - first) =~= s@.subrange(first as int, i as int));
                    if parse_decimal(text) is Some {
                        assert(parse_decimal(text) == Some(digits_value(digits)));
                    }
                }
                return None;
            },
        }
        i += 1;
    }
    assert(s@.subrange(first as int, end as int) =~= digits);
    Some(acc)
}

/// `str::parse::<usize>` on `s[start..end]`.
pub fn parse_usize(s: &[char], start: usize, end: usize) -> (r: Option<usize>)
    requires
        start <= end <= s@.len(),
    ensures
        r == parse_usize_spec(s@.subrange(start as int, end as int)),
{
    match parse_u64(s, start, end) {
        Some(v) => {
            if v <= usize::MAX as u64 {
                Some(v as usize)
            } else {
                None
            }
        },
        None => None,
    }
}

/// The value of a run of digits is at least the value of any of its prefixes
/// extended by one digit.
proof fn lemma_digits_value_grows(digits: Seq<char>, k: int)
    requires
        0 <= k < digits.len(),
        forall|j: int| 0 <= j < k ==> is_digit(#[trigger] digits[j]),
        is_digit(digits[k]),
    ensures
        digits_value(digits) >= digits_value(digits.take(k)) * 10 + digit_value(digits[k]),
    decreases digits.len(),
{
    if digits.len() == k + 1 {
        assert(digits.drop_last() =~= digits.take(k));
    } else {
        lemma_digits_value_grows(digits.drop_last(), k);
        assert(digits.drop_last().take(k) =~= digits.take(k));
        let v = digits_value(digits.drop_last());
        assert(v * 10 >= v) by (nonlinear_arith) requires v >= 0;
    }
}


// ---------------------------------------------------------------------------
// Whitespace and trimming

/// `char::is_whitespace`: the characters with the Unicode `White_Space` property.
pub open spec fn is_whitespace(c: char) -> bool {
    ||| ('\u{9}' <= c && c <= '\u{d}')
    ||| c == ' '
    ||| c == '\u{85}'
    ||| c == '\u{a0}'
    ||| c == '\u{1680}'
    ||| ('\u{2000}' <= c && c <= '\u{200a}')
    ||| c == '\u{2028}'
    ||| c == '\u{2029}'
    ||| c == '\u{202f}'
    ||| c == '\u{205f}'
    ||| c == '\u{3000}'
}

/// `char::is_whitespace`.
pub fn whitespace(c: char) -> (b: bool)
    ensures
        b == is_whitespace(c),
{
    ('\u{9}' <= c && c <= '\u{d}') || c == ' ' || c == '\u{85}' || c == '\u{a0}' || c == '\u{1680}'
        || ('\u{2000}' <= c && c <= '\u{200a}') || c == '\u{2028}' || c == '\u{2029}'
        || c == '\u{202f}' || c == '\u{205f}' || c == '\u{3000}'
}

/// `str::trim_start`: the text without its leading whitespace.
pub open spec fn trim_start(s: Seq<char>) -> Seq<char>
    decreases s.len(),
{
    if s.len() > 0 && is_whitespace(s[0]) {
        trim_start(s.drop_first())
    } else {
        s
    }
}

/// `str::trim_end`: the text without its trailing whitespace.
pub open spec fn trim_end(s: Seq<char>) -> Seq<char>
    decreases s.len(),
{
    if s.len() > 0 && is_whitespace(s.last()) {
        trim_end(s.drop_last())
    } else {
        s
    }
}

/// `str::trim`: the text without leading and trailing whitespace.
pub open spec fn trim(s: Seq<char>) -> Seq<char> {
    trim_end(trim_start(s))
}

/// `str::trim_end_matches(c)`: the text without the copies of `c` at its end.
pub open spec fn trim_end_char(s: Seq<char>, c: char) -> Seq<char>
    decreases s.len(),
{
    if s.len() > 0 && s.last() == c {
        trim_end_char(s.drop_last(), c)
    } else {
        s
    }
}

/// The bounds of `trim(s[start..end])` within `s`.
pub fn trim_range(s: &[char], start: usize, end: usize) -> (r: (usize, usize))
    requires
        start <= end <= s@.len(),
    ensures
        start <= r.0 <= r.1 <= end,
        s@.subrange(r.0 as int, r.1 as int) == trim(s@.subrange(start as int, end as int)),
{
    let mut a = start;
    while a < end && whitespace(s[a])
        invariant
            start <= a <= end <= s@.len(),
            trim_start(s@.subrange(start as int, end as int)) == trim_start(s@.subrange(a as int, end as int)),
        decreases end - a,
    {
        assert(s@.subrange(a as int, end as int).drop_first() =~= s@.subrange(a + 1, end as int));
        a += 1;
    }
    let mut b = end;
    while b > a && whitespace(s[b - 1])
        invariant
            start <= a <= b <= end <= s@.len(),
            trim_end(s@.subrange(a as int, end as int)) == trim_end(s@.subrange(a as int, b as int)),
        decreases b - a,
    {
        assert(s@.subrange(a as int, b as int).drop_last() =~= s@.subrange(a as int, b - 1));
        b -= 1;
    }
    (a, b)
}

/// The end of `trim_end_char(s[start..end], c)` within `s`.
pub fn trim_end_char_range(s: &[char], start: usize, end: usize, c: char) -> (e: usize)
    requires
        start <= end <= s@.len(),
    ensures
        start <= e <= end,
        s@.subrange(start as int, e as int) == trim_end_char(s@.subrange(start as int, end as int), c),
{
    let mut b = end;
    while b > start && s[b - 1] == c
        invariant
            start <= b <= end <= s@.len(),
            trim_end_char(s@.subrange(start as int, end as int), c) == trim_end_char(s@.subrange(start as int, b as int), c),
        decreases b - start,
    {
        assert(s@.subrange(start as int, b as int).drop_last() =~= s@.subrange(start as int, b - 1));
        b -= 1;
    }
    b
}

/// A text with no whitespace at either end is its own trim.
pub proof fn lemma_trim_unchanged(s: Seq<char>)
    requires
        s.len() > 0 ==> !is_whitespace(s[0]) && !is_whitespace(s.last()),
    ensures
        trim(s) == s,
{
}

// ---------------------------------------------------------------------------
// Prefixes, finding and splitting

/// `s.starts_with(p)`.
pub open spec fn starts_with(s: Seq<char>, p: Seq<char>) -> bool {
    p.len() <= s.len() && s.take(p.len() as int) == p
}

/// Whether `s[start..end]` starts with `p`.
pub fn range_starts_with(s: &[char], start: usize, end: usize, p: &str) -> (b: bool)
    requires
        start <= end <= s@.len(),
    ensures
        b == starts_with(s@.subrange(start as int, end as int), p@),
{
    let pc = chars_of(p);
    if pc.len() > end - start {
        return false;
    }
    let mut i: usize = 0;
    while i < pc.len()
        invariant
            pc@ == p@,
            pc@.len() <= end - start,
            start <= end <= s@.len(),
            i <= pc@.len(),
            forall|j: int| 0 <= j < i ==> s@[start + j] == pc@[j],
        decreases pc@.len() - i,
    {
        if s[start + i] != pc[i] {
            assert(s@.subrange(start as int, end as int).take(pc@.len() as int)[i as int] != p@[i as int]);
            return false;
        }
        i += 1;
    }
    assert(s@.subrange(start as int, end as int).take(pc@.len() as int) =~= p@);
    true
}

/// Whether `s[start..end]` is exactly `p`.
pub fn range_equals(s: &[char], start: usize, end: usize, p: &str) -> (b: bool)
    requires
        start <= end <= s@.len(),
    ensures
        b == (s@.subrange(start as int, end as int) == p@),
{
    let pc = chars_of(p);
    if pc.len() != end - start {
        assert(s@.subrange(start as int, end as int).len() != p@.len());
        return false;
    }
    let r = range_starts_with(s, start, end, p);
    assert(s@.subrange(start as int, end as int).take(p@.len() as int) =~= s@.subrange(start as int, end as int));
    r
}

/// The position of the first `c` in `s`.
pub open spec fn find_char(s: Seq<char>, c: char) -> Option<nat>
    decreases s.len(),
{
    if s.len() == 0 {
        None
    } else if s[0] == c {
        Some(0)
    } else {
        match find_char(s.drop_first(), c) {
            Some(i) => Some(i + 1),
            None => None,
        }
    }
}

/// `find_char` gives the position of the first `c`, or `None` where there is none.
pub proof fn lemma_find_char(s: Seq<char>, c: char)
    ensures
        match find_char(s, c) {
            Some(i) => i < s.len() && s[i as int] == c && forall|j: int| 0 <= j < i ==> s[j] != c,
            None => forall|j: int| 0 <= j < s.len() ==> s[j] != c,
        },
    decreases s.len(),
{
    if s.len() > 0 && s[0] != c {
        lemma_find_char(s.drop_first(), c);
        assert forall|j: int| 1 <= j < s.len() implies s[j] == s.drop_first()[j - 1] by {}
    }
}

/// A `c` with no `c` before it is the first one.
pub proof fn lemma_find_char_at(s: Seq<char>, c: char, i: int)
    requires
        0 <= i < s.len(),
        s[i] == c,
        forall|j: int| 0 <= j < i ==> s[j] != c,
    ensures
        find_char(s, c) == Some(i as nat),
    decreases i,
{
    if i > 0 {
        assert forall|j: int| 0 <= j < i - 1 implies s.drop_first()[j] != c by {
            assert(s.drop_first()[j] == s[j + 1]);
        }
        lemma_find_char_at(s.drop_first(), c, i - 1);
    }
}

/// A text that ends with a newline and has no whitespace at its ends
/// otherwise is trimmed to the text before the newline.
pub proof fn lemma_trim_line(body: Seq<char>)
    requires
        body.len() > 0,
        !is_whitespace(body[0]),
        !is_whitespace(body.last()),
    ensures
        trim(body + "\n"@) == body,
{
    reveal_strlit("\n");
    let line = body + "\n"@;
    assert(line[0] == body[0]);
    assert(trim_start(line) == line);
    assert(line.last() == '\n');
    assert(line.drop_last() =~= body);
    assert(trim_end(body) == body);
}

/// The position in `s` of the first `c` in `s[start..end]`.
pub fn find_char_in(s: &[char], start: usize, end: usize, c: char) -> (r: Option<usize>)
    requires
        start <= end <= s@.len(),
    ensures
        match find_char(s@.subrange(start as int, end as int), c) {
            Some(i) => r == Some((start + i) as usize),
            None => r is None,
        },
{
    let mut i = start;
    while i < end
        invariant
            start <= i <= end <= s@.len(),
            find_char(s@.subrange(start as int, end as int), c) == match find_char(s@.subrange(i as int, end as int), c) {
                Some(k) => Some((k + (i - start)) as nat),
                None => None,
            },
        decreases end - i,
    {
        if s[i] == c {
            return Some(i);
        }
        assert(s@.subrange(i as int, end as int).drop_first() =~= s@.subrange(i + 1, end as int));
        i += 1;
    }
    None
}

/// `s.split_once(c)`: the text before and after the first `c`.
pub open spec fn split_once(s: Seq<char>, c: char) -> Option<(Seq<char>, Seq<char>)> {
    match find_char(s, c) {
        Some(i) => Some((s.take(i as int), s.skip(i + 1 as int))),
        None => None,
    }
}

/// `s.split(c)`: the pieces between the copies of `c`, empty ones included.
pub open spec fn split_char(s: Seq<char>, c: char) -> Seq<Seq<char>>
    decreases s.len(),
{
    if s.len() == 0 {
        seq![Seq::empty()]
    } else {
        let pre = split_char(s.drop_last(), c);
        if s.last() == c {
            pre.push(Seq::empty())
        } else {
            pre.update(pre.len() - 1, pre.last().push(s.last()))
        }
    }
}

/// Splitting gives at least one piece.
pub proof fn lemma_split_char_len(s: Seq<char>, c: char)
    ensures
        split_char(s, c).len() >= 1,
    decreases s.len(),
{
    if s.len() > 0 {
        lemma_split_char_len(s.drop_last(), c);
    }
}

/// The pieces of `s[start..end].split(c)`, as bounds within `s`.
pub fn split_ranges(s: &[char], start: usize, end: usize, c: char) -> (r: Vec<(usize, usize)>)
    requires
        start <= end <= s@.len(),
    ensures
        r@.len() == split_char(s@.subrange(start as int, end as int), c).len(),
        forall|k: int| 0 <= k < r@.len() ==> {
            &&& start <= (#[trigger] r@[k]).0 <= r@[k].1 <= end
            &&& s@.subrange(r@[k].0 as int, r@[k].1 as int) == split_char(s@.subrange(start as int, end as int), c)[k]
        },
{
    let mut r: Vec<(usize, usize)> = Vec::new();
    let mut piece_start = start;
    let mut i = start;
    while i < end
        invariant
            start <= piece_start <= i <= end <= s@.len(),
            r@.len() + 1 == split_char(s@.subrange(start as int, i as int), c).len(),
            forall|k: int| 0 <= k < r@.len() ==> {
                &&& start <= (#[trigger] r@[k]).0 <= r@[k].1 <= i
                &&& s@.subrange(r@[k].0 as int, r@[k].1 as int) == split_char(s@.subrange(start as int, i as int), c)[k]
            },
            s@.subrange(piece_start as int, i as int) == split_char(s@.subrange(start as int, i as int), c).last(),
        decreases end - i,
    {
        let ghost pre = split_char(s@.subrange(start as int, i as int), c);
        proof {
            lemma_split_char_len(s@.subrange(start as int, i as int), c);
            assert(s@.subrange(start as int, i + 1).drop_last() =~= s@.subrange(start as int, i as int));
        }
        if s[i] == c {
            r.push((piece_start, i));
            piece_start = i + 1;
            assert(s@.subrange(piece_start as int, i + 1) =~= Seq::<char>::empty());
        } else {
            assert(s@.subrange(piece_start as int, i + 1) =~= s@.subrange(piece_start as int, i as int).push(s@[i as int]));
        }
        i += 1;
    }
    proof {
        lemma_split_char_len(s@.subrange(start as int, end as int), c);
    }
    r.push((piece_start, end));
    r
}

/// `items` joined with `sep` between consecutive items.
pub open spec fn join_with(items: Seq<Seq<char>>, sep: char) -> Seq<char>
    decreases items.len(),
{
    if items.len() == 0 {
        Seq::empty()
    } else if items.len() == 1 {
        items[0]
    } else {
        join_with(items.drop_last(), sep) + seq![sep] + items.last()
    }
}

/// Splitting where there is no separator gives the whole text.
pub proof fn lemma_split_char_none(s: Seq<char>, c: char)
    requires
        forall|j: int| 0 <= j < s.len() ==> s[j] != c,
    ensures
        split_char(s, c) == seq![s],
    decreases s.len(),
{
    if s.len() > 0 {
        lemma_split_char_none(s.drop_last(), c);
        assert(s.drop_last().push(s.last()) =~= s);
    } else {
        assert(s =~= Seq::<char>::empty());
    }
}

/// Splitting at a separator splits each side on its own.
pub proof fn lemma_split_char_append(a: Seq<char>, b: Seq<char>, c: char)
    ensures
        split_char(a + seq![c] + b, c) == split_char(a, c) + split_char(b, c),
    decreases b.len(),
{
    lemma_split_char_len(a, c);
    if b.len() == 0 {
        assert((a + seq![c] + b).drop_last() =~= a);
        assert(split_char(b, c) =~= seq![Seq::<char>::empty()]);
        assert(split_char(a, c).push(Seq::<char>::empty()) =~= split_char(a, c) + split_char(b, c));
    } else {
        lemma_split_char_append(a, b.drop_last(), c);
        lemma_split_char_len(b.drop_last(), c);
        assert((a + seq![c] + b).drop_last() =~= a + seq![c] + b.drop_last());
        let pa = split_char(a, c);
        let pb = split_char(b.drop_last(), c);
        if b.last() == c {
            assert((pa + pb).push(Seq::<char>::empty()) =~= pa + pb.push(Seq::<char>::empty()));
        } else {
            assert((pa + pb).update((pa + pb).len() - 1, (pa + pb).last().push(b.last()))
                =~= pa + pb.update(pb.len() - 1, pb.last().push(b.last())));
        }
    }
}

/// Splitting a joined list gives the list back, where no item holds the separator.
pub proof fn lemma_split_join(items: Seq<Seq<char>>, c: char)
    requires
        items.len() > 0,
        forall|k: int, j: int| 0 <= k < items.len() && 0 <= j < items[k].len() ==> items[k][j] != c,
    ensures
        split_char(join_with(items, c), c) == items,
    decreases items.len(),
{
    if items.len() == 1 {
        lemma_split_char_none(items[0], c);
        assert(items =~= seq![items[0]]);
    } else {
        lemma_split_join(items.drop_last(), c);
        lemma_split_char_append(join_with(items.drop_last(), c), items.last(), c);
        lemma_split_char_none(items.last(), c);
        assert(items.drop_last() + seq![items.last()] =~= items);
    }
}


// ---------------------------------------------------------------------------
// Words

/// The words of `s` so far and the word under way, reading `s` from the start.
pub open spec fn scan_words(s: Seq<char>) -> (Seq<Seq<char>>, Seq<char>)
    decreases s.len(),
{
    if s.len() == 0 {
        (Seq::empty(), Seq::empty())
    } else {
        let (words, cur) = scan_words(s.drop_last());
        let c = s.last();
        if is_whitespace(c) {
            if cur.len() > 0 {
                (words.push(cur), Seq::empty())
            } else {
                (words, Seq::empty())
            }
        } else {
            (words, cur.push(c))
        }
    }
}

/// `str::split_whitespace`: the maximal runs of non-whitespace characters.
pub open spec fn words(s: Seq<char>) -> Seq<Seq<char>> {
    let (ws, cur) = scan_words(s);
    if cur.len() > 0 {
        ws.push(cur)
    } else {
        ws
    }
}

/// The words of `s`, as bounds within `s`.
pub fn word_ranges(s: &[char]) -> (r: Vec<(usize, usize)>)
    ensures
        r@.len() == words(s@).len(),
        forall|k: int| 0 <= k < r@.len() ==> {
            &&& (#[trigger] r@[k]).0 <= r@[k].1 <= s@.len()
            &&& s@.subrange(r@[k].0 as int, r@[k].1 as int) == words(s@)[k]
        },
{
    let mut r: Vec<(usize, usize)> = Vec::new();
    let mut word_start: usize = 0;
    let mut i: usize = 0;
    while i < s.len()
        invariant
            word_start <= i <= s@.len(),
            r@.len() == scan_words(s@.take(i as int)).0.len(),
            forall|k: int| 0 <= k < r@.len() ==> {
                &&& (#[trigger] r@[k]).0 <= r@[k].1 <= i
                &&& s@.subrange(r@[k].0 as int, r@[k].1 as int) == scan_words(s@.take(i as int)).0[k]
            },
            s@.subrange(word_start as int, i as int) == scan_words(s@.take(i as int)).1,
        decreases s@.len() - i,
    {
        assert(s@.take(i + 1).drop_last() =~= s@.take(i as int));
        assert(s@.take(i + 1).last() == s@[i as int]);
        if whitespace(s[i]) {
            if word_start < i {
                r.push((word_start, i));
            }
            word_start = i + 1;
            assert(s@.subrange(word_start as int, i + 1) =~= Seq::<char>::empty());
        } else {
            assert(s@.subrange(word_start as int, i + 1) =~= s@.subrange(word_start as int, i as int).push(s@[i as int]));
        }
        i += 1;
    }
    assert(s@.take(i as int) =~= s@);
    if word_start < i {
        r.push((word_start, i));
    }
    r
}

/// Splitting words joined by single spaces gives the words back, where each
/// word is non-empty and holds no whitespace.
pub proof fn lemma_words_joined(items: Seq<Seq<char>>)
    requires
        forall|k: int| 0 <= k < items.len() ==> (#[trigger] items[k]).len() > 0,
        forall|k: int, j: int| 0 <= k < items.len() && 0 <= j < items[k].len() ==> !is_whitespace(items[k][j]),
    ensures
        scan_words(join_with(items, ' ')).1 == (if items.len() > 0 { items.last() } else { Seq::<char>::empty() }),
        scan_words(join_with(items, ' ')).0 == (if items.len() > 0 { items.drop_last() } else { Seq::<Seq<char>>::empty() }),
        words(join_with(items, ' ')) == items,
    decreases items.len(),
{
    if items.len() == 0 {
        assert(join_with(items, ' ') =~= Seq::<char>::empty());
    } else if items.len() == 1 {
        lemma_scan_word(Seq::<char>::empty(), items[0], Seq::empty(), Seq::empty());
        assert(Seq::<char>::empty() + items[0] =~= items[0]);
        assert(Seq::<Seq<char>>::empty().push(items[0]) =~= items);
        assert(items.drop_last() =~= Seq::<Seq<char>>::empty());
    } else {
        let pre = items.drop_last();
        lemma_words_joined(pre);
        let j = join_with(pre, ' ');
        let js = j.push(' ');
        assert(js.drop_last() =~= j);
        assert(scan_words(js) == (pre.drop_last().push(pre.last()), Seq::<char>::empty()));
        assert(pre.drop_last().push(pre.last()) =~= pre);
        assert(join_with(items, ' ') =~= js + items.last());
        lemma_scan_word(js, items.last(), pre, Seq::empty());
        assert(Seq::<char>::empty() + items.last() =~= items.last());
        assert(pre.push(items.last()) =~= items);
    }
}

/// Reading a word of non-whitespace characters extends the word under way.
proof fn lemma_scan_word(prefix: Seq<char>, w: Seq<char>, ws: Seq<Seq<char>>, cur: Seq<char>)
    requires
        scan_words(prefix) == (ws, cur),
        forall|j: int| 0 <= j < w.len() ==> !is_whitespace(w[j]),
    ensures
        scan_words(prefix + w) == (ws, cur + w),
    decreases w.len(),
{
    if w.len() == 0 {
        assert(prefix + w =~= prefix);
        assert(cur + w =~= cur);
    } else {
        lemma_scan_word(prefix, w.drop_last(), ws, cur);
        assert((prefix + w).drop_last() =~= prefix + w.drop_last());
        assert((prefix + w).last() == w.last());
        assert((cur + w.drop_last()).push(w.last()) =~= cur + w);
    }
}

} // verus!
