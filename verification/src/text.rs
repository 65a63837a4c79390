//! Strings as sequences of characters: searching, cutting, joining and case.

use vstd::prelude::*;
use vstd::string::*;

verus! {

/// `String::push` of std appends one character to the end of the string.
pub assume_specification[ String::push ](s: &mut String, c: char)
    ensures
        final(s)@ == old(s)@.push(c),
;

/// `==` of std on two string slices holds exactly when they have the same characters.
#[verifier::external_body]
pub(crate) fn same(a: &str, b: &str) -> (r: bool)
    ensures
        r == (a@ == b@),
{
    a == b
}

/// A string as `Debug` of std writes it: in quotes, with what would not print escaped.
pub uninterp spec fn quoted(text: Seq<char>) -> Seq<char>;

/// `Debug` of std for a string slice puts it in quotes and escapes what would not print. What it
/// writes is a function of the characters alone, which [`quoted`] names.
#[verifier::external_body]
pub(crate) fn quote(text: &str) -> (r: String)
    ensures
        r@ == quoted(text@),
{
    format!("{text:?}")
}

/// The characters of a string, in order.
pub fn chars_of(s: &str) -> (r: Vec<char>)
    ensures
        r@ == s@,
{
    let mut out: Vec<char> = Vec::new();
    for c in it: s.chars()
        invariant
            out@ == it.seq().take(it.index() as int),
            it.seq() == s@,
    {
        out.push(c);
    }
    out
}

/// The string made of the characters from `from` up to `to`.
pub fn string_between(chars: &Vec<char>, from: usize, to: usize) -> (r: String)
    requires
        from <= to <= chars@.len(),
    ensures
        r@ == chars@.subrange(from as int, to as int),
{
    let mut out = String::new();
    let mut i: usize = from;
    while i < to
        invariant
            from <= i <= to <= chars@.len(),
            out@ == chars@.subrange(from as int, i as int),
        decreases to - i,
    {
        out.push(chars[i]);
        i = i + 1;
        assert(out@ =~= chars@.subrange(from as int, i as int));
    }
    out
}

/// The string with these characters.
pub fn string_of(chars: &Vec<char>) -> (r: String)
    ensures
        r@ == chars@,
{
    let r = string_between(chars, 0, chars.len());
    assert(chars@.subrange(0, chars@.len() as int) =~= chars@);
    r
}

/// Where `c` first stands in `s`, or the length of `s` when it does not.
pub open spec fn first_at(s: Seq<char>, c: char) -> nat
    decreases s.len(),
{
    if s.len() == 0 {
        0
    } else if s[0] == c {
        0
    } else {
        1 + first_at(s.drop_first(), c)
    }
}

/// What [`first_at`] says: nothing before that place is `c`, and what stands there is.
pub proof fn lemma_first_at(s: Seq<char>, c: char)
    ensures
        first_at(s, c) <= s.len(),
        forall|i: int| 0 <= i < first_at(s, c) ==> s[i] != c,
        first_at(s, c) < s.len() ==> s[first_at(s, c) as int] == c,
    decreases s.len(),
{
    if s.len() > 0 && s[0] != c {
        let rest = s.drop_first();
        lemma_first_at(rest, c);
        assert forall|i: int| 0 <= i < first_at(s, c) implies s[i] != c by {
            if i > 0 {
                assert(rest[i - 1] == s[i]);
            }
        }
    }
}

/// The place with nothing before it equal to `c` is the one that [`first_at`] gives.
pub proof fn lemma_first_at_is(s: Seq<char>, c: char, n: nat)
    requires
        n <= s.len(),
        forall|i: int| 0 <= i < n ==> s[i] != c,
        n < s.len() ==> s[n as int] == c,
    ensures
        first_at(s, c) == n,
{
    lemma_first_at(s, c);
}

/// The part before the first `sep` and the part after it, when there is one.
pub open spec fn cut(s: Seq<char>, sep: char) -> Option<(Seq<char>, Seq<char>)> {
    let n = first_at(s, sep) as int;
    if n < s.len() {
        Some((s.take(n), s.skip(n + 1)))
    } else {
        None
    }
}

fn find_from(chars: &Vec<char>, from: usize, c: char) -> (r: usize)
    requires
        from <= chars@.len(),
    ensures
        from <= r <= chars@.len(),
        r - from == first_at(chars@.skip(from as int), c),
{
    let mut i: usize = from;
    while i < chars.len() && chars[i] != c
        invariant
            from <= i <= chars@.len(),
            forall|j: int| from <= j < i ==> chars@[j] != c,
        decreases chars@.len() - i,
    {
        i = i + 1;
    }
    proof {
        lemma_first_at_is(chars@.skip(from as int), c, (i - from) as nat);
    }
    i
}

/// Split at the first `sep`.
pub fn split_once(s: &str, sep: char) -> (r: Option<(String, String)>)
    ensures
        r.deep_view() == cut(s@, sep),
{
    let chars = chars_of(s);
    let n: usize = find_from(&chars, 0, sep);
    assert(chars@.skip(0) =~= chars@);
    if n < chars.len() {
        let before = string_between(&chars, 0, n);
        let after = string_between(&chars, n + 1, chars.len());
        assert(before@ =~= s@.take(n as int));
        assert(after@ =~= s@.skip(n + 1));
        Some((before, after))
    } else {
        None
    }
}

/// The part of `s` before the first `sep`, or all of it when there is none.
pub open spec fn before_first(s: Seq<char>, sep: char) -> Seq<char> {
    s.take(first_at(s, sep) as int)
}

/// The part of `s` before the first `sep`, or all of it.
pub fn take_before(s: &str, sep: char) -> (r: String)
    ensures
        r@ == before_first(s@, sep),
{
    let chars = chars_of(s);
    let n: usize = find_from(&chars, 0, sep);
    assert(chars@.skip(0) =~= chars@);
    let r = string_between(&chars, 0, n);
    assert(r@ =~= s@.take(n as int));
    r
}

/// The parts of `s` between one `sep` and the next. There is always at least one.
pub open spec fn fields(s: Seq<char>, sep: char) -> Seq<Seq<char>>
    decreases s.len(),
{
    let n = first_at(s, sep) as int;
    if 0 <= n < s.len() {
        seq![s.take(n)] + fields(s.skip(n + 1), sep)
    } else {
        seq![s]
    }
}

/// Split at every `sep`.
pub fn split_on(s: &str, sep: char) -> (r: Vec<String>)
    ensures
        r.deep_view() == fields(s@, sep),
{
    let chars = chars_of(s);
    let mut out: Vec<String> = Vec::new();
    let mut from: usize = 0;
    assert(chars@.skip(0) =~= chars@);
    assert(out.deep_view() + fields(chars@.skip(0), sep) =~= fields(chars@, sep));
    loop
        invariant_except_break
            from <= chars@.len(),
            out.deep_view() + fields(chars@.skip(from as int), sep) == fields(chars@, sep),
        ensures
            out.deep_view() == fields(chars@, sep),
        decreases chars@.len() - from,
    {
        let ghost rest = chars@.skip(from as int);
        let ghost had = out.deep_view();
        let end: usize = find_from(&chars, from, sep);
        let part = string_between(&chars, from, end);
        assert(part@ =~= rest.take(end - from));
        out.push(part);
        assert(out.deep_view() =~= had.push(part@));
        if end == chars.len() {
            assert(part@ =~= rest);
            assert(out.deep_view() =~= had + fields(rest, sep));
            break;
        }
        assert(chars@.skip(end + 1) =~= rest.skip(end - from + 1));
        assert(out.deep_view() + fields(chars@.skip(end + 1), sep) =~= had + fields(rest, sep));
        from = end + 1;
    }
    out
}

/// The characters with Unicode's `White_Space` property.
pub open spec fn white_space(c: char) -> bool {
    ||| '\u{9}' <= c <= '\u{d}'
    ||| c == ' '
    ||| c == '\u{85}'
    ||| c == '\u{a0}'
    ||| c == '\u{1680}'
    ||| '\u{2000}' <= c <= '\u{200a}'
    ||| c == '\u{2028}'
    ||| c == '\u{2029}'
    ||| c == '\u{202f}'
    ||| c == '\u{205f}'
    ||| c == '\u{3000}'
}

/// True for a character with Unicode's `White_Space` property.
pub fn is_white_space(c: char) -> (r: bool)
    ensures
        r == white_space(c),
{
    ('\u{9}' <= c && c <= '\u{d}') || c == ' ' || c == '\u{85}' || c == '\u{a0}' || c == '\u{1680}'
        || ('\u{2000}' <= c && c <= '\u{200a}') || c == '\u{2028}' || c == '\u{2029}' || c
        == '\u{202f}' || c == '\u{205f}' || c == '\u{3000}'
}

/// How many characters at the start of `s` are not white space.
pub open spec fn word_len(s: Seq<char>) -> nat
    decreases s.len(),
{
    if s.len() == 0 || white_space(s[0]) {
        0
    } else {
        1 + word_len(s.drop_first())
    }
}

proof fn lemma_word_len(s: Seq<char>, n: nat)
    requires
        n <= s.len(),
        forall|i: int| 0 <= i < n ==> !white_space(s[i]),
        n < s.len() ==> white_space(s[n as int]),
    ensures
        word_len(s) == n,
    decreases s.len(),
{
    if n > 0 {
        let rest = s.drop_first();
        assert forall|i: int| 0 <= i < n - 1 implies !white_space(rest[i]) by {
            assert(rest[i] == s[i + 1]);
        }
        lemma_word_len(rest, (n - 1) as nat);
    }
}

/// The words of `s`: its longest runs without white space, in order.
pub open spec fn words(s: Seq<char>) -> Seq<Seq<char>>
    decreases s.len(),
{
    let n = word_len(s) as int;
    if s.len() == 0 {
        Seq::empty()
    } else if 0 < n <= s.len() {
        seq![s.take(n)] + words(s.skip(n))
    } else {
        words(s.drop_first())
    }
}

/// Split at white space, leaving out what is empty.
pub fn split_words(s: &str) -> (r: Vec<String>)
    ensures
        r.deep_view() == words(s@),
{
    let chars = chars_of(s);
    let mut out: Vec<String> = Vec::new();
    let mut from: usize = 0;
    assert(chars@.skip(0) =~= chars@);
    assert(out.deep_view() + words(chars@.skip(0)) =~= words(chars@));
    while from < chars.len()
        invariant
            from <= chars@.len(),
            out.deep_view() + words(chars@.skip(from as int)) == words(chars@),
        decreases chars@.len() - from,
    {
        let ghost rest = chars@.skip(from as int);
        let ghost had = out.deep_view();
        let mut end: usize = from;
        while end < chars.len() && !is_white_space(chars[end])
            invariant
                from <= end <= chars@.len(),
                forall|j: int| from <= j < end ==> !white_space(chars@[j]),
            decreases chars@.len() - end,
        {
            end = end + 1;
        }
        proof {
            lemma_word_len(rest, (end - from) as nat);
        }
        if end > from {
            let word = string_between(&chars, from, end);
            assert(word@ =~= rest.take(end - from));
            out.push(word);
            assert(out.deep_view() =~= had.push(word@));
            assert(chars@.skip(end as int) =~= rest.skip(end - from));
            assert(out.deep_view() + words(chars@.skip(end as int)) =~= had + words(rest));
            from = end;
        } else {
            assert(chars@.skip(from + 1) =~= rest.drop_first());
            from = from + 1;
        }
    }
    assert(out.deep_view() =~= words(chars@));
    out
}

/// True when `c` stands in `s`.
pub fn contains_char(s: &str, c: char) -> (r: bool)
    ensures
        r == s@.contains(c),
{
    let chars = chars_of(s);
    let n: usize = find_from(&chars, 0, c);
    proof {
        assert(chars@.skip(0) =~= chars@);
        lemma_first_at(chars@, c);
    }
    n < chars.len()
}

/// `s` without its first character, when that is `c`.
pub open spec fn without_prefix(s: Seq<char>, c: char) -> Option<Seq<char>> {
    if s.len() > 0 && s[0] == c {
        Some(s.skip(1))
    } else {
        None
    }
}

/// Take `c` off the front.
pub fn strip_char(s: &str, c: char) -> (r: Option<String>)
    ensures
        r.deep_view() == without_prefix(s@, c),
{
    let chars = chars_of(s);
    if chars.len() > 0 && chars[0] == c {
        let rest = string_between(&chars, 1, chars.len());
        assert(rest@ =~= s@.skip(1));
        Some(rest)
    } else {
        None
    }
}

/// The first character, when there is one.
pub fn first_char(s: &str) -> (r: Option<char>)
    ensures
        r == (if s@.len() > 0 { Some(s@[0]) } else { None::<char> }),
{
    if s.is_empty() {
        None
    } else {
        Some(s.get_char(0))
    }
}

/// `s` without `prefix` at its front, or `s` itself when it does not start with it.
pub open spec fn past_prefix(s: Seq<char>, prefix: Seq<char>) -> Seq<char> {
    if prefix.is_prefix_of(s) {
        s.skip(prefix.len() as int)
    } else {
        s
    }
}

/// Take `prefix` off the front where it stands there.
pub fn trim_prefix(s: &str, prefix: &str) -> (r: String)
    ensures
        r@ == past_prefix(s@, prefix@),
{
    let chars = chars_of(s);
    let pre = chars_of(prefix);
    if pre.len() > chars.len() {
        return s.to_owned();
    }
    let mut i: usize = 0;
    while i < pre.len()
        invariant
            i <= pre@.len() <= chars@.len(),
            forall|j: int| 0 <= j < i ==> pre@[j] == chars@[j],
            chars@ == s@,
            pre@ == prefix@,
        decreases pre@.len() - i,
    {
        if pre[i] != chars[i] {
            assert(prefix@[i as int] != s@.subrange(0, prefix@.len() as int)[i as int]);
            return s.to_owned();
        }
        i = i + 1;
    }
    assert(prefix@ =~= s@.subrange(0, prefix@.len() as int));
    let r = string_between(&chars, pre.len(), chars.len());
    assert(r@ =~= s@.skip(prefix@.len() as int));
    r
}

/// One character with ASCII letters in lower case.
pub open spec fn lower_char(c: char) -> char {
    if 'A' <= c <= 'Z' {
        ((c as u32) + 32) as char
    } else {
        c
    }
}

/// One character with ASCII letters in upper case.
pub open spec fn upper_char(c: char) -> char {
    if 'a' <= c <= 'z' {
        ((c as u32) - 32) as char
    } else {
        c
    }
}

/// `s` with its ASCII letters in lower case.
pub open spec fn lower(s: Seq<char>) -> Seq<char> {
    s.map_values(|c: char| lower_char(c))
}

/// `s` with its ASCII letters in upper case.
pub open spec fn upper(s: Seq<char>) -> Seq<char> {
    s.map_values(|c: char| upper_char(c))
}

/// Put one ASCII letter in lower case.
pub fn to_lower_char(c: char) -> (r: char)
    ensures
        r == lower_char(c),
{
    if 'A' <= c && c <= 'Z' {
        ((c as u8) + 32u8) as char
    } else {
        c
    }
}

/// Put one ASCII letter in upper case.
pub fn to_upper_char(c: char) -> (r: char)
    ensures
        r == upper_char(c),
{
    if 'a' <= c && c <= 'z' {
        ((c as u8) - 32u8) as char
    } else {
        c
    }
}

/// Put the ASCII letters in upper case.
pub fn to_upper(s: &str) -> (r: String)
    ensures
        r@ == upper(s@),
{
    let mut out = String::new();
    for c in it: s.chars()
        invariant
            out@ == upper(it.seq().take(it.index() as int)),
            it.seq() == s@,
    {
        out.push(to_upper_char(c));
        assert(out@ =~= upper(it.seq().take(it.index() + 1)));
    }
    assert(s@.take(s@.len() as int) =~= s@);
    out
}

/// True when the two differ at most in the case of their ASCII letters.
pub fn same_ignoring_case(a: &str, b: &str) -> (r: bool)
    ensures
        r == (lower(a@) == lower(b@)),
{
    let x = chars_of(a);
    let y = chars_of(b);
    if x.len() != y.len() {
        assert(lower(a@).len() != lower(b@).len());
        return false;
    }
    let mut i: usize = 0;
    while i < x.len()
        invariant
            i <= x@.len() == y@.len(),
            forall|j: int| 0 <= j < i ==> lower_char(x@[j]) == lower_char(y@[j]),
            x@ == a@,
            y@ == b@,
        decreases x@.len() - i,
    {
        if to_lower_char(x[i]) != to_lower_char(y[i]) {
            assert(lower(a@)[i as int] != lower(b@)[i as int]);
            return false;
        }
        i = i + 1;
    }
    assert(lower(a@) =~= lower(b@));
    true
}

/// The parts one after another, with `sep` between each and the next.
pub open spec fn joined(parts: Seq<Seq<char>>, sep: Seq<char>) -> Seq<char>
    decreases parts.len(),
{
    if parts.len() == 0 {
        Seq::empty()
    } else if parts.len() == 1 {
        parts[0]
    } else {
        joined(parts.drop_last(), sep) + sep + parts.last()
    }
}

/// Join the parts from `from` up to `to`.
pub fn join_between(parts: &Vec<String>, from: usize, to: usize, sep: &str) -> (r: String)
    requires
        from <= to <= parts@.len(),
    ensures
        r@ == joined(parts.deep_view().subrange(from as int, to as int), sep@),
{
    let mut out = String::new();
    let mut i: usize = from;
    let ghost all = parts.deep_view();
    while i < to
        invariant
            from <= i <= to <= parts@.len(),
            all == parts.deep_view(),
            out@ == joined(all.subrange(from as int, i as int), sep@),
        decreases to - i,
    {
        let ghost done = all.subrange(from as int, i as int);
        let ghost next = all.subrange(from as int, i + 1);
        if i > from {
            out.append(sep);
        }
        out.append(&parts[i]);
        assert(next.drop_last() =~= done);
        assert(next.last() == parts@[i as int]@);
        assert(out@ =~= joined(next, sep@));
        i = i + 1;
    }
    out
}

/// The decimal digit for a value below ten.
pub open spec fn digit_char(d: int) -> char {
    (('0' as u32) + d) as char
}

/// A number in decimal, without leading zeros.
pub open spec fn decimal(n: nat) -> Seq<char>
    decreases n,
{
    if n < 10 {
        seq![digit_char(n as int)]
    } else {
        decimal(n / 10).push(digit_char((n % 10) as int))
    }
}

/// Write a number in decimal.
pub fn decimal_of(n: u64) -> (r: String)
    ensures
        r@ == decimal(n as nat),
    decreases n,
{
    let d: u8 = (n % 10) as u8;
    let c = (48u8 + d) as char;
    if n < 10 {
        let mut out = String::new();
        out.push(c);
        assert(out@ =~= decimal(n as nat));
        out
    } else {
        let mut out = decimal_of(n / 10);
        out.push(c);
        out
    }
}

/// True for `0` to `9`.
pub open spec fn is_digit(c: char) -> bool {
    '0' <= c <= '9'
}

/// True when every character is a decimal digit.
pub open spec fn all_digits(s: Seq<char>) -> bool {
    forall|i: int| 0 <= i < s.len() ==> is_digit(#[trigger] s[i])
}

/// What a run of decimal digits stands for.
pub open spec fn digits_value(s: Seq<char>) -> nat
    decreases s.len(),
{
    if s.len() == 0 {
        0
    } else {
        digits_value(s.drop_last()) * 10 + ((s.last() as u32) - ('0' as u32)) as nat
    }
}

proof fn lemma_digits_value_grows(s: Seq<char>, n: int)
    requires
        0 <= n <= s.len(),
        all_digits(s),
    ensures
        digits_value(s.take(n)) <= digits_value(s),
    decreases s.len(),
{
    if n < s.len() {
        assert(all_digits(s.drop_last()));
        lemma_digits_value_grows(s.drop_last(), n);
        assert(s.drop_last().take(n) =~= s.take(n));
        assert(is_digit(s.last()));
    } else {
        assert(s.take(n) =~= s);
    }
}

/// The number that a text of decimal digits stands for, with an optional `+` before them, when
/// there is a digit and the number is at most `max`.
pub open spec fn unsigned(s: Seq<char>, max: nat) -> Option<nat> {
    let digits = if s.len() > 0 && s[0] == '+' { s.skip(1) } else { s };
    if digits.len() > 0 && all_digits(digits) && digits_value(digits) <= max {
        Some(digits_value(digits))
    } else {
        None
    }
}

/// Read the digits from `from` on as a number of at most `max`.
pub fn digits_at(chars: &Vec<char>, from: usize, max: u64) -> (r: Option<u64>)
    requires
        from <= chars@.len(),
    ensures
        ({
            let digits = chars@.skip(from as int);
            if digits.len() > 0 && all_digits(digits) && digits_value(digits) <= max {
                r == Some(digits_value(digits) as u64)
            } else {
                r is None
            }
        }),
{
    let ghost digits = chars@.skip(from as int);
    if from == chars.len() {
        return None;
    }
    let mut i: usize = from;
    let mut value: u64 = 0;
    while i < chars.len()
        invariant
            from <= i <= chars@.len(),
            from < chars@.len(),
            digits == chars@.skip(from as int),
            forall|j: int| 0 <= j < i - from ==> is_digit(#[trigger] digits[j]),
            value == digits_value(digits.take(i - from)),
            value <= max,
        decreases chars@.len() - i,
    {
        let c = chars[i];
        assert(digits[i - from] == c);
        if !('0' <= c && c <= '9') {
            assert(!is_digit(digits[i - from]));
            return None;
        }
        let d: u64 = (c as u64) - 48;
        let ghost next = digits.take(i - from + 1);
        assert(next.drop_last() =~= digits.take(i - from));
        assert(digits_value(next) == value * 10 + d);
        if value > (u64::MAX - d) / 10 || value * 10 + d > max {
            proof {
                if all_digits(digits) {
                    lemma_digits_value_grows(digits, i - from + 1);
                }
            }
            return None;
        }
        value = value * 10 + d;
        i = i + 1;
    }
    assert(digits.take(digits.len() as int) =~= digits);
    Some(value)
}

/// Read an unsigned decimal number of at most `max`.
pub fn parse_unsigned(s: &str, max: u64) -> (r: Option<u64>)
    ensures
        match unsigned(s@, max as nat) {
            Some(n) => r == Some(n as u64),
            None => r is None,
        },
{
    let chars = chars_of(s);
    assert(chars@.skip(0) =~= chars@);
    let from: usize = if chars.len() > 0 && chars[0] == '+' { 1 } else { 0 };
    digits_at(&chars, from, max)
}

/// Copy a list of strings.
pub fn copy_strings(parts: &Vec<String>, from: usize, to: usize) -> (r: Vec<String>)
    requires
        from <= to <= parts@.len(),
    ensures
        r@ == parts@.subrange(from as int, to as int),
        r.deep_view() == parts.deep_view().subrange(from as int, to as int),
{
    let mut out: Vec<String> = Vec::new();
    let mut i: usize = from;
    while i < to
        invariant
            from <= i <= to <= parts@.len(),
            out@ == parts@.subrange(from as int, i as int),
        decreases to - i,
    {
        out.push(parts[i].clone());
        i = i + 1;
        assert(out@ =~= parts@.subrange(from as int, i as int));
    }
    assert(out.deep_view() =~= parts.deep_view().subrange(from as int, to as int));
    out
}

/// True when the list holds this string.
pub fn contains_string(parts: &Vec<String>, s: &str) -> (r: bool)
    ensures
        r == parts.deep_view().contains(s@),
{
    let mut i: usize = 0;
    let ghost all = parts.deep_view();
    while i < parts.len()
        invariant
            i <= parts@.len(),
            all == parts.deep_view(),
            forall|j: int| 0 <= j < i ==> all[j] != s@,
        decreases parts@.len() - i,
    {
        if same(&parts[i], s) {
            assert(all[i as int] == s@);
            return true;
        }
        assert(all[i as int] == parts@[i as int]@);
        i = i + 1;
    }
    false
}

/// True for every text but this one.
pub open spec fn other_text(name: Seq<char>) -> spec_fn(Seq<char>) -> bool {
    |s: Seq<char>| s != name
}

/// Take every occurrence of a string out of a list.
pub fn drop_string(parts: &mut Vec<String>, s: &str)
    ensures
        final(parts).deep_view() == old(parts).deep_view().filter(other_text(s@)),
{
    let ghost all = parts.deep_view();
    let mut kept: Vec<String> = Vec::new();
    let mut i: usize = 0;
    proof {
        reveal(Seq::filter);
    }
    assert(kept.deep_view() =~= all.take(0).filter(other_text(s@)));
    while i < parts.len()
        invariant
            i <= parts@.len() == all.len(),
            all == parts.deep_view(),
            kept.deep_view() == all.take(i as int).filter(other_text(s@)),
        decreases parts@.len() - i,
    {
        proof {
            reveal(Seq::filter);
        }
        assert(all.take(i + 1).drop_last() =~= all.take(i as int));
        if !same(&parts[i], s) {
            let ghost had = kept.deep_view();
            kept.push(parts[i].clone());
            assert(kept.deep_view() =~= had.push(all[i as int]));
        }
        i = i + 1;
    }
    assert(all.take(all.len() as int) =~= all);
    *parts = kept;
}

} // verus!
