//! A small JSON value, with the reader and the writer for it.

use vstd::prelude::*;
use vstd::string::*;

use crate::text::{all_digits, decimal, decimal_of, digits_value, is_digit, same};

verus! {

/// One JSON value. Numbers are whole: a fraction or an exponent is read over.
#[derive(Debug, PartialEq)]
pub enum Json {
    /// `null`.
    Null,
    /// `true` or `false`.
    Bool(bool),
    /// A whole number.
    Num(i64),
    /// A string.
    Str(String),
    /// An array.
    Array(Vec<Json>),
    /// An object, with its fields in the order they stand.
    Object(Vec<(String, Json)>),
}

/// What a JSON value says.
pub enum JsonView {
    Null,
    Bool(bool),
    Num(i64),
    Str(Seq<char>),
    Array(Seq<JsonView>),
    Object(Seq<(Seq<char>, JsonView)>),
}

/// What each of these values says.
pub open spec fn views(items: Seq<Json>) -> Seq<JsonView>
    decreases items,
{
    if items.len() == 0 {
        Seq::empty()
    } else {
        views(items.drop_last()).push(view_of(items.last()))
    }
}

/// What each of these fields says.
pub open spec fn field_views(fields: Seq<(String, Json)>) -> Seq<(Seq<char>, JsonView)>
    decreases fields,
{
    if fields.len() == 0 {
        Seq::empty()
    } else {
        field_views(fields.drop_last()).push((fields.last().0@, view_of(fields.last().1)))
    }
}

/// What a JSON value says.
pub open spec fn view_of(value: Json) -> JsonView
    decreases value,
{
    match value {
        Json::Null => JsonView::Null,
        Json::Bool(b) => JsonView::Bool(b),
        Json::Num(n) => JsonView::Num(n),
        Json::Str(s) => JsonView::Str(s@),
        Json::Array(items) => JsonView::Array(views(items@)),
        Json::Object(fields) => JsonView::Object(field_views(fields@)),
    }
}

impl View for Json {
    type V = JsonView;

    open spec fn view(&self) -> JsonView {
        view_of(*self)
    }
}

impl DeepView for Json {
    type V = JsonView;

    open spec fn deep_view(&self) -> JsonView {
        self@
    }
}

/// What values say, one by one.
pub(crate) proof fn lemma_views(items: Seq<Json>)
    ensures
        views(items).len() == items.len(),
        forall|i: int| 0 <= i < items.len() ==> (#[trigger] views(items)[i]) == items[i]@,
    decreases items.len(),
{
    if items.len() > 0 {
        lemma_views(items.drop_last());
    }
}

/// What fields say, one by one.
pub(crate) proof fn lemma_field_views(fields: Seq<(String, Json)>)
    ensures
        field_views(fields).len() == fields.len(),
        forall|i: int|
            0 <= i < fields.len() ==> (#[trigger] field_views(fields)[i]) == (
                fields[i].0@,
                fields[i].1@,
            ),
    decreases fields.len(),
{
    if fields.len() > 0 {
        lemma_field_views(fields.drop_last());
    }
}

/// The characters that may stand between the parts of a value.
pub open spec fn blank(c: char) -> bool {
    c == ' ' || c == '\t' || c == '\n' || c == '\r'
}

/// `s` from its first character that is not blank on.
pub open spec fn past_blanks(s: Seq<char>) -> Seq<char>
    decreases s.len(),
{
    if s.len() > 0 && blank(s[0]) {
        past_blanks(s.drop_first())
    } else {
        s
    }
}

/// Skipping blanks does not lengthen a text.
pub proof fn lemma_past_blanks(s: Seq<char>)
    ensures
        past_blanks(s).len() <= s.len(),
    decreases s.len(),
{
    if s.len() > 0 && blank(s[0]) {
        lemma_past_blanks(s.drop_first());
    }
}

/// What a hexadecimal digit stands for.
pub open spec fn hex_digit(c: char) -> Option<nat> {
    if '0' <= c <= '9' {
        Some(((c as u32) - ('0' as u32)) as nat)
    } else if 'a' <= c <= 'f' {
        Some(((c as u32) - ('a' as u32) + 10) as nat)
    } else if 'A' <= c <= 'F' {
        Some(((c as u32) - ('A' as u32) + 10) as nat)
    } else {
        None
    }
}

/// What a run of hexadecimal digits stands for.
pub open spec fn hex_value(s: Seq<char>) -> Option<nat>
    decreases s.len(),
{
    if s.len() == 0 {
        Some(0)
    } else {
        match (hex_value(s.drop_last()), hex_digit(s.last())) {
            (Some(v), Some(d)) => Some(v * 16 + d),
            _ => None,
        }
    }
}

/// The number in the first four characters, which are all digits, and what follows them.
pub open spec fn read_hex4(s: Seq<char>) -> Option<(nat, Seq<char>)> {
    if s.len() < 4 {
        None
    } else {
        match hex_value(s.take(4)) {
            Some(v) => Some((v, s.skip(4))),
            None => None,
        }
    }
}

/// The character with this scalar value.
pub open spec fn scalar(n: nat) -> Option<char> {
    if n < 0xD800 || 0xE000 <= n <= 0x10FFFF {
        Some(n as char)
    } else {
        None
    }
}

/// The character that the digits after `\u` give, and what follows. A high surrogate needs a second
/// escape with a low one.
pub open spec fn read_unicode(s: Seq<char>) -> Option<(char, Seq<char>)> {
    match read_hex4(s) {
        None => None,
        Some((unit, r)) => if 0xD800 <= unit <= 0xDBFF {
            if r.len() >= 2 && r[0] == '\\' && r[1] == 'u' {
                match read_hex4(r.skip(2)) {
                    Some((low, r2)) => if 0xDC00 <= low <= 0xDFFF {
                        match scalar(
                            (0x10000 + (unit - 0xD800) * 0x400 + (low - 0xDC00)) as nat,
                        ) {
                            Some(c) => Some((c, r2)),
                            None => None,
                        }
                    } else {
                        None
                    },
                    None => None,
                }
            } else {
                None
            }
        } else {
            match scalar(unit) {
                Some(c) => Some((c, r)),
                None => None,
            }
        },
    }
}

/// The character that an escape gives, after its backslash, and what follows.
pub open spec fn read_escape(s: Seq<char>) -> Option<(char, Seq<char>)> {
    if s.len() == 0 {
        None
    } else {
        let r = s.drop_first();
        if s[0] == '"' {
            Some(('"', r))
        } else if s[0] == '\\' {
            Some(('\\', r))
        } else if s[0] == '/' {
            Some(('/', r))
        } else if s[0] == 'b' {
            Some(('\u{8}', r))
        } else if s[0] == 'f' {
            Some(('\u{c}', r))
        } else if s[0] == 'n' {
            Some(('\n', r))
        } else if s[0] == 'r' {
            Some(('\r', r))
        } else if s[0] == 't' {
            Some(('\t', r))
        } else if s[0] == 'u' {
            read_unicode(r)
        } else {
            None
        }
    }
}

/// The string up to the closing quote, and what follows it.
pub open spec fn read_body(s: Seq<char>) -> Option<(Seq<char>, Seq<char>)>
    decreases s.len(),
{
    if s.len() == 0 {
        None
    } else if s[0] == '"' {
        Some((Seq::empty(), s.drop_first()))
    } else if s[0] == '\\' {
        match read_escape(s.drop_first()) {
            Some((c, r)) => if r.len() < s.len() {
                match read_body(r) {
                    Some((text, rest)) => Some((seq![c] + text, rest)),
                    None => None,
                }
            } else {
                None
            },
            None => None,
        }
    } else {
        match read_body(s.drop_first()) {
            Some((text, rest)) => Some((seq![s[0]] + text, rest)),
            None => None,
        }
    }
}

/// The string at the front, and what follows it.
pub open spec fn read_string(s: Seq<char>) -> Option<(Seq<char>, Seq<char>)> {
    if s.len() > 0 && s[0] == '"' {
        read_body(s.drop_first())
    } else {
        None
    }
}

/// What follows a string is shorter than the text it stands in.
pub proof fn lemma_body_shorter(s: Seq<char>)
    ensures
        read_body(s) matches Some((t, r)) ==> r.len() < s.len(),
    decreases s.len(),
{
    if s.len() > 0 && s[0] != '"' {
        if s[0] == '\\' {
            if let Some((c, r)) = read_escape(s.drop_first()) {
                if r.len() < s.len() {
                    lemma_body_shorter(r);
                }
            }
        } else {
            lemma_body_shorter(s.drop_first());
        }
    }
}

/// How many decimal digits stand at the front.
pub open spec fn digit_run(s: Seq<char>) -> nat
    decreases s.len(),
{
    if s.len() > 0 && is_digit(s[0]) {
        1 + digit_run(s.drop_first())
    } else {
        0
    }
}

proof fn lemma_digit_run(s: Seq<char>)
    ensures
        digit_run(s) <= s.len(),
        forall|i: int| 0 <= i < digit_run(s) ==> is_digit(#[trigger] s[i]),
        digit_run(s) < s.len() ==> !is_digit(s[digit_run(s) as int]),
    decreases s.len(),
{
    if s.len() > 0 && is_digit(s[0]) {
        let rest = s.drop_first();
        lemma_digit_run(rest);
        assert forall|i: int| 0 <= i < digit_run(s) implies is_digit(#[trigger] s[i]) by {
            if i > 0 {
                assert(rest[i - 1] == s[i]);
            }
        }
    }
}

proof fn lemma_digit_run_is(s: Seq<char>, n: nat)
    requires
        n <= s.len(),
        forall|i: int| 0 <= i < n ==> is_digit(#[trigger] s[i]),
        n < s.len() ==> !is_digit(s[n as int]),
    ensures
        digit_run(s) == n,
    decreases s.len(),
{
    lemma_digit_run(s);
    if digit_run(s) < n {
        assert(is_digit(s[digit_run(s) as int]));
    } else if digit_run(s) > n {
        assert(is_digit(s[n as int]));
    }
}

/// `s` past the digits at its front.
pub open spec fn past_digits(s: Seq<char>) -> Seq<char> {
    s.skip(digit_run(s) as int)
}

/// `s` past a fraction at its front.
pub open spec fn past_fraction(s: Seq<char>) -> Seq<char> {
    if s.len() > 0 && s[0] == '.' {
        past_digits(s.drop_first())
    } else {
        s
    }
}

/// `s` past an exponent at its front.
pub open spec fn past_exponent(s: Seq<char>) -> Seq<char> {
    if s.len() > 0 && (s[0] == 'e' || s[0] == 'E') {
        let t = s.drop_first();
        if t.len() > 0 && (t[0] == '+' || t[0] == '-') {
            past_digits(t.drop_first())
        } else {
            past_digits(t)
        }
    } else {
        s
    }
}

/// The number at the front as a whole number, and what follows it.
pub open spec fn read_number(s: Seq<char>) -> Option<(i64, Seq<char>)> {
    let negative = s.len() > 0 && s[0] == '-';
    let t = if negative {
        s.drop_first()
    } else {
        s
    };
    let n = digit_run(t) as int;
    let size = digits_value(t.take(n)) as int;
    let value = if negative {
        -size
    } else {
        size
    };
    if n > 0 && i64::MIN <= value <= i64::MAX {
        Some((value as i64, past_exponent(past_fraction(t.skip(n)))))
    } else {
        None
    }
}

proof fn lemma_number_shorter(s: Seq<char>)
    ensures
        read_number(s) matches Some((v, r)) ==> r.len() < s.len(),
{
    let negative = s.len() > 0 && s[0] == '-';
    let t = if negative {
        s.drop_first()
    } else {
        s
    };
    lemma_digit_run(t);
    let a = past_digits(t);
    if a.len() > 0 {
        lemma_digit_run(a.drop_first());
    }
    let b = past_fraction(a);
    if b.len() > 0 {
        lemma_digit_run(b.drop_first());
        if b.drop_first().len() > 0 {
            lemma_digit_run(b.drop_first().drop_first());
        }
    }
}

/// What stands after `word` at the front of `s`.
pub open spec fn past_word(s: Seq<char>, word: Seq<char>) -> Option<Seq<char>> {
    if word.len() <= s.len() && s.take(word.len() as int) == word {
        Some(s.skip(word.len() as int))
    } else {
        None
    }
}

/// `null`.
pub open spec fn null_word() -> Seq<char> {
    seq!['n', 'u', 'l', 'l']
}

/// `true` or `false`.
pub open spec fn bool_word(b: bool) -> Seq<char> {
    if b {
        seq!['t', 'r', 'u', 'e']
    } else {
        seq!['f', 'a', 'l', 's', 'e']
    }
}

/// The value at the front, and what follows it.
pub open spec fn read_value(s: Seq<char>) -> Option<(JsonView, Seq<char>)>
    decreases s.len(), 1nat,
{
    proof {
        lemma_past_blanks(s);
    }
    let t = past_blanks(s);
    if t.len() == 0 {
        None
    } else if t[0] == '"' {
        match read_string(t) {
            Some((text, r)) => Some((JsonView::Str(text), r)),
            None => None,
        }
    } else if t[0] == '{' {
        proof {
            lemma_past_blanks(t.drop_first());
        }
        let u = past_blanks(t.drop_first());
        if u.len() > 0 && u[0] == '}' {
            Some((JsonView::Object(Seq::empty()), u.drop_first()))
        } else {
            match read_fields(u) {
                Some((fields, r)) => Some((JsonView::Object(fields), r)),
                None => None,
            }
        }
    } else if t[0] == '[' {
        proof {
            lemma_past_blanks(t.drop_first());
        }
        let u = past_blanks(t.drop_first());
        if u.len() > 0 && u[0] == ']' {
            Some((JsonView::Array(Seq::empty()), u.drop_first()))
        } else {
            match read_items(u) {
                Some((items, r)) => Some((JsonView::Array(items), r)),
                None => None,
            }
        }
    } else if t[0] == 't' {
        match past_word(t, bool_word(true)) {
            Some(r) => Some((JsonView::Bool(true), r)),
            None => None,
        }
    } else if t[0] == 'f' {
        match past_word(t, bool_word(false)) {
            Some(r) => Some((JsonView::Bool(false), r)),
            None => None,
        }
    } else if t[0] == 'n' {
        match past_word(t, null_word()) {
            Some(r) => Some((JsonView::Null, r)),
            None => None,
        }
    } else if t[0] == '-' || is_digit(t[0]) {
        match read_number(t) {
            Some((n, r)) => Some((JsonView::Num(n), r)),
            None => None,
        }
    } else {
        None
    }
}

/// The items of an array up to its closing bracket, and what follows it. There is at least one.
pub open spec fn read_items(s: Seq<char>) -> Option<(Seq<JsonView>, Seq<char>)>
    decreases s.len(), 2nat,
{
    match read_value(s) {
        None => None,
        Some((v, r)) => {
            proof {
                lemma_past_blanks(r);
            }
            let t = past_blanks(r);
            if t.len() == 0 || t.len() >= s.len() {
                None
            } else if t[0] == ']' {
                Some((seq![v], t.drop_first()))
            } else if t[0] == ',' {
                proof {
                    lemma_past_blanks(t.drop_first());
                }
                match read_items(past_blanks(t.drop_first())) {
                    Some((more, rest)) => Some((seq![v] + more, rest)),
                    None => None,
                }
            } else {
                None
            }
        },
    }
}

/// The fields of an object up to its closing brace, and what follows it. There is at least one.
pub open spec fn read_fields(s: Seq<char>) -> Option<(Seq<(Seq<char>, JsonView)>, Seq<char>)>
    decreases s.len(), 2nat,
{
    proof {
        lemma_past_blanks(s);
    }
    match read_string(past_blanks(s)) {
        None => None,
        Some((key, r)) => {
            proof {
                lemma_past_blanks(r);
                lemma_body_shorter(past_blanks(s).drop_first());
            }
            let t = past_blanks(r);
            if t.len() == 0 || t[0] != ':' {
                None
            } else {
                match read_value(t.drop_first()) {
                    None => None,
                    Some((v, r2)) => {
                        proof {
                            lemma_past_blanks(r2);
                        }
                        let u = past_blanks(r2);
                        if u.len() == 0 || u.len() >= s.len() {
                            None
                        } else if u[0] == '}' {
                            Some((seq![(key, v)], u.drop_first()))
                        } else if u[0] == ',' {
                            match read_fields(u.drop_first()) {
                                Some((more, rest)) => Some((seq![(key, v)] + more, rest)),
                                None => None,
                            }
                        } else {
                            None
                        }
                    },
                }
            }
        },
    }
}

/// The value that a whole text holds, with nothing but blanks around it.
pub open spec fn read(s: Seq<char>) -> Option<JsonView> {
    match read_value(past_blanks(s)) {
        Some((v, r)) => if past_blanks(r).len() == 0 {
            Some(v)
        } else {
            None
        },
        None => None,
    }
}

proof fn lemma_value_shorter(s: Seq<char>)
    ensures
        read_value(s) matches Some((v, r)) ==> r.len() < s.len(),
    decreases s.len(), 1nat,
{
    lemma_past_blanks(s);
    let t = past_blanks(s);
    if t.len() > 0 {
        lemma_past_blanks(t.drop_first());
        let u = past_blanks(t.drop_first());
        if t[0] == '"' {
            lemma_body_shorter(t.drop_first());
        } else if t[0] == '{' {
            lemma_fields_shorter(u);
        } else if t[0] == '[' {
            lemma_items_shorter(u);
        } else if t[0] == '-' || is_digit(t[0]) {
            lemma_number_shorter(t);
        }
    }
}

proof fn lemma_items_shorter(s: Seq<char>)
    ensures
        read_items(s) matches Some((v, r)) ==> r.len() < s.len(),
    decreases s.len(), 2nat,
{
    lemma_value_shorter(s);
    if let Some((v, r)) = read_value(s) {
        lemma_past_blanks(r);
        let t = past_blanks(r);
        if 0 < t.len() && t.len() < s.len() && t[0] == ',' {
            lemma_past_blanks(t.drop_first());
            lemma_items_shorter(past_blanks(t.drop_first()));
        }
    }
}

proof fn lemma_fields_shorter(s: Seq<char>)
    ensures
        read_fields(s) matches Some((v, r)) ==> r.len() < s.len(),
    decreases s.len(), 2nat,
{
    lemma_past_blanks(s);
    if let Some((key, r)) = read_string(past_blanks(s)) {
        lemma_past_blanks(r);
        lemma_body_shorter(past_blanks(s).drop_first());
        let t = past_blanks(r);
        if t.len() > 0 && t[0] == ':' {
            lemma_value_shorter(t.drop_first());
            if let Some((v, r2)) = read_value(t.drop_first()) {
                lemma_past_blanks(r2);
                let u = past_blanks(r2);
                if 0 < u.len() && u.len() < s.len() && u[0] == ',' {
                    lemma_fields_shorter(u.drop_first());
                }
            }
        }
    }
}

/// `char::from_u32` of std gives the character with a scalar value, and nothing for a number that is
/// none.
pub assume_specification[ char::from_u32 ](i: u32) -> (r: Option<char>)
    ensures
        r == scalar(i as nat),
;

/// What was read before, put in front of what was read after it.
pub open spec fn prepended<T, R>(before: Seq<T>, after: Option<(Seq<T>, R)>) -> Option<(Seq<T>, R)> {
    match after {
        Some((more, rest)) => Some((before + more, rest)),
        None => None,
    }
}

fn skip_blanks(chars: &Vec<char>, pos: usize) -> (r: usize)
    requires
        pos <= chars@.len(),
    ensures
        pos <= r <= chars@.len(),
        chars@.skip(r as int) == past_blanks(chars@.skip(pos as int)),
{
    let mut i: usize = pos;
    while i < chars.len() && (chars[i] == ' ' || chars[i] == '\t' || chars[i] == '\n' || chars[i]
        == '\r')
        invariant
            pos <= i <= chars@.len(),
            past_blanks(chars@.skip(i as int)) == past_blanks(chars@.skip(pos as int)),
        decreases chars@.len() - i,
    {
        assert(chars@.skip(i as int).drop_first() =~= chars@.skip(i + 1));
        i = i + 1;
    }
    i
}

fn skip_digits(chars: &Vec<char>, pos: usize) -> (r: usize)
    requires
        pos <= chars@.len(),
    ensures
        pos <= r <= chars@.len(),
        r - pos == digit_run(chars@.skip(pos as int)),
        chars@.skip(r as int) == past_digits(chars@.skip(pos as int)),
{
    let mut i: usize = pos;
    let ghost s = chars@.skip(pos as int);
    while i < chars.len() && '0' <= chars[i] && chars[i] <= '9'
        invariant
            pos <= i <= chars@.len(),
            s == chars@.skip(pos as int),
            forall|j: int| 0 <= j < i - pos ==> is_digit(#[trigger] s[j]),
        decreases chars@.len() - i,
    {
        assert(s[i - pos] == chars@[i as int]);
        i = i + 1;
    }
    proof {
        if i < chars@.len() {
            assert(s[i - pos] == chars@[i as int]);
        }
        lemma_digit_run_is(s, (i - pos) as nat);
        assert(chars@.skip(i as int) =~= s.skip(i - pos));
    }
    i
}

fn hex_digit_of(c: char) -> (r: Option<u32>)
    ensures
        match hex_digit(c) {
            Some(d) => r == Some(d as u32) && d < 16,
            None => r is None,
        },
{
    if '0' <= c && c <= '9' {
        Some((c as u32) - 48)
    } else if 'a' <= c && c <= 'f' {
        Some((c as u32) - 97 + 10)
    } else if 'A' <= c && c <= 'F' {
        Some((c as u32) - 65 + 10)
    } else {
        None
    }
}

fn parse_hex4(chars: &Vec<char>, pos: usize) -> (r: Option<(u32, usize)>)
    requires
        pos <= chars@.len(),
    ensures
        match (read_hex4(chars@.skip(pos as int)), r) {
            (Some((v, rest)), Some((got, at))) => {
                &&& got == v
                &&& v < 0x10000
                &&& at == pos + 4
                &&& pos + 4 <= chars@.len()
                &&& chars@.skip(pos + 4) == rest
            },
            (None, None) => true,
            _ => false,
        },
{
    if chars.len() - pos < 4 {
        return None;
    }
    let ghost s = chars@.skip(pos as int);
    let ghost digits = s.take(4);
    let mut i: usize = pos;
    let mut value: u32 = 0;
    let end: usize = pos + 4;
    while i < end
        invariant
            pos <= i <= end,
            end == pos + 4,
            end <= chars@.len(),
            digits == chars@.skip(pos as int).take(4),
            hex_value(digits.take(i - pos)) == Some(value as nat),
            i - pos == 0 ==> value == 0,
            i - pos == 1 ==> value < 0x10,
            i - pos == 2 ==> value < 0x100,
            i - pos == 3 ==> value < 0x1000,
            i - pos == 4 ==> value < 0x10000,
        decreases end - i,
    {
        let ghost next = digits.take(i - pos + 1);
        assert(next.drop_last() =~= digits.take(i - pos));
        assert(next.last() == chars@[i as int]);
        match hex_digit_of(chars[i]) {
            Some(d) => {
                value = value * 16 + d;
            },
            None => {
                proof {
                    lemma_hex_prefix(digits, i - pos + 1);
                }
                return None;
            },
        }
        i = i + 1;
    }
    assert(digits.take(digits.len() as int) =~= digits);
    assert(chars@.skip(pos + 4) =~= s.skip(4));
    Some((value, end))
}

proof fn lemma_hex_prefix(s: Seq<char>, n: int)
    requires
        0 <= n <= s.len(),
        hex_value(s.take(n)) is None,
    ensures
        hex_value(s) is None,
    decreases s.len(),
{
    if n < s.len() {
        assert(s.drop_last().take(n) =~= s.take(n));
        lemma_hex_prefix(s.drop_last(), n);
    } else {
        assert(s.take(n) =~= s);
    }
}

fn parse_unicode(chars: &Vec<char>, pos: usize) -> (r: Option<(char, usize)>)
    requires
        pos <= chars@.len(),
    ensures
        match (read_unicode(chars@.skip(pos as int)), r) {
            (Some((c, rest)), Some((got, at))) => {
                &&& got == c
                &&& pos < at <= chars@.len()
                &&& chars@.skip(at as int) == rest
            },
            (None, None) => true,
            _ => false,
        },
{
    let (unit, at) = match parse_hex4(chars, pos) {
        Some(found) => found,
        None => return None,
    };
    let ghost r = chars@.skip(at as int);
    if 0xD800 <= unit && unit <= 0xDBFF {
        if chars.len() - at < 2 || chars[at] != '\\' || chars[at + 1] != 'u' {
            assert(r.len() >= 2 ==> r[0] == chars@[at as int] && r[1] == chars@[at + 1]);
            return None;
        }
        assert(r[0] == chars@[at as int] && r[1] == chars@[at + 1]);
        assert(chars@.skip(at + 2) =~= r.skip(2));
        let (low, end) = match parse_hex4(chars, at + 2) {
            Some(found) => found,
            None => return None,
        };
        if low < 0xDC00 || low > 0xDFFF {
            return None;
        }
        let n: u32 = 0x10000 + (unit - 0xD800) * 0x400 + (low - 0xDC00);
        match char::from_u32(n) {
            Some(c) => Some((c, end)),
            None => None,
        }
    } else {
        match char::from_u32(unit) {
            Some(c) => Some((c, at)),
            None => None,
        }
    }
}

fn parse_escape(chars: &Vec<char>, pos: usize) -> (r: Option<(char, usize)>)
    requires
        pos <= chars@.len(),
    ensures
        match (read_escape(chars@.skip(pos as int)), r) {
            (Some((c, rest)), Some((got, at))) => {
                &&& got == c
                &&& pos < at <= chars@.len()
                &&& chars@.skip(at as int) == rest
            },
            (None, None) => true,
            _ => false,
        },
{
    if pos >= chars.len() {
        return None;
    }
    let c = chars[pos];
    let next: usize = pos + 1;
    assert(chars@.skip(pos as int).drop_first() =~= chars@.skip(next as int));
    assert(chars@.skip(pos as int)[0] == c);
    if c == '"' {
        Some(('"', next))
    } else if c == '\\' {
        Some(('\\', next))
    } else if c == '/' {
        Some(('/', next))
    } else if c == 'b' {
        Some(('\u{8}', next))
    } else if c == 'f' {
        Some(('\u{c}', next))
    } else if c == 'n' {
        Some(('\n', next))
    } else if c == 'r' {
        Some(('\r', next))
    } else if c == 't' {
        Some(('\t', next))
    } else if c == 'u' {
        parse_unicode(chars, next)
    } else {
        None
    }
}

fn parse_string(chars: &Vec<char>, pos: usize) -> (r: Option<(String, usize)>)
    requires
        pos <= chars@.len(),
    ensures
        match (read_string(chars@.skip(pos as int)), r) {
            (Some((text, rest)), Some((got, at))) => {
                &&& got@ == text
                &&& pos < at <= chars@.len()
                &&& chars@.skip(at as int) == rest
            },
            (None, None) => true,
            _ => false,
        },
{
    let ghost s = chars@.skip(pos as int);
    if pos >= chars.len() || chars[pos] != '"' {
        assert(s.len() > 0 ==> s[0] == chars@[pos as int]);
        return None;
    }
    assert(s[0] == chars@[pos as int]);
    let mut i: usize = pos + 1;
    let mut out = String::new();
    let ghost start = chars@.skip(i as int);
    assert(s.drop_first() =~= start);
    assert(read_body(start) == prepended(out@, read_body(start))) by {
        if let Some((t, r)) = read_body(start) {
            assert(out@ + t =~= t);
        }
    }
    while i < chars.len()
        invariant
            pos < i <= chars@.len(),
            read_string(chars@.skip(pos as int)) == read_body(start),
            read_body(start) == prepended(out@, read_body(chars@.skip(i as int))),
        decreases chars@.len() - i,
    {
        let c = chars[i];
        let ghost cur = chars@.skip(i as int);
        let ghost had = out@;
        assert(cur[0] == c);
        assert(cur.drop_first() =~= chars@.skip(i + 1));
        if c == '"' {
            assert(had + Seq::empty() =~= had);
            return Some((out, i + 1));
        }
        if c == '\\' {
            match parse_escape(chars, i + 1) {
                Some((e, next)) => {
                    proof {
                        if let Some((t, r)) = read_body(chars@.skip(next as int)) {
                            assert(had + (seq![e] + t) =~= had.push(e) + t);
                        }
                    }
                    out.push(e);
                    i = next;
                },
                None => return None,
            }
        } else {
            proof {
                if let Some((t, r)) = read_body(chars@.skip(i + 1)) {
                    assert(had + (seq![c] + t) =~= had.push(c) + t);
                }
            }
            out.push(c);
            i = i + 1;
        }
    }
    None
}

fn parse_number(chars: &Vec<char>, pos: usize) -> (r: Option<(i64, usize)>)
    requires
        pos <= chars@.len(),
    ensures
        match (read_number(chars@.skip(pos as int)), r) {
            (Some((n, rest)), Some((got, at))) => {
                &&& got == n
                &&& pos < at <= chars@.len()
                &&& chars@.skip(at as int) == rest
            },
            (None, None) => true,
            _ => false,
        },
{
    let ghost s = chars@.skip(pos as int);
    let negative = pos < chars.len() && chars[pos] == '-';
    assert(s.len() > 0 ==> s[0] == chars@[pos as int]);
    let from: usize = if negative {
        pos + 1
    } else {
        pos
    };
    let ghost t = chars@.skip(from as int);
    assert(negative ==> t =~= s.drop_first());
    let end: usize = skip_digits(chars, from);
    let mut digits: Vec<char> = Vec::new();
    let mut i: usize = from;
    while i < end
        invariant
            from <= i <= end <= chars@.len(),
            t == chars@.skip(from as int),
            digits@ == t.take(i - from),
        decreases end - i,
    {
        digits.push(chars[i]);
        i = i + 1;
        assert(digits@ =~= t.take(i - from));
    }
    let at: usize = skip_exponent(chars, skip_fraction(chars, end));
    proof {
        lemma_digit_run(t);
        assert(all_digits(digits@));
        assert(digits@.skip(0) =~= digits@);
        lemma_number_shorter(s);
    }
    let max: u64 = if negative {
        0x8000_0000_0000_0000
    } else {
        0x7fff_ffff_ffff_ffff
    };
    match crate::text::digits_at(&digits, 0, max) {
        Some(size) => {
            let value: i64 = if negative {
                if size == 0x8000_0000_0000_0000 {
                    i64::MIN
                } else {
                    -(size as i64)
                }
            } else {
                size as i64
            };
            Some((value, at))
        },
        None => None,
    }
}

fn skip_fraction(chars: &Vec<char>, pos: usize) -> (r: usize)
    requires
        pos <= chars@.len(),
    ensures
        pos <= r <= chars@.len(),
        chars@.skip(r as int) == past_fraction(chars@.skip(pos as int)),
{
    let ghost s = chars@.skip(pos as int);
    assert(s.len() > 0 ==> s[0] == chars@[pos as int]);
    if pos < chars.len() && chars[pos] == '.' {
        assert(s.drop_first() =~= chars@.skip(pos + 1));
        skip_digits(chars, pos + 1)
    } else {
        pos
    }
}

fn skip_exponent(chars: &Vec<char>, pos: usize) -> (r: usize)
    requires
        pos <= chars@.len(),
    ensures
        pos <= r <= chars@.len(),
        chars@.skip(r as int) == past_exponent(chars@.skip(pos as int)),
{
    let ghost s = chars@.skip(pos as int);
    assert(s.len() > 0 ==> s[0] == chars@[pos as int]);
    if pos < chars.len() && (chars[pos] == 'e' || chars[pos] == 'E') {
        let next: usize = pos + 1;
        let ghost t = chars@.skip(next as int);
        assert(s.drop_first() =~= t);
        assert(t.len() > 0 ==> t[0] == chars@[next as int]);
        if next < chars.len() && (chars[next] == '+' || chars[next] == '-') {
            assert(t.drop_first() =~= chars@.skip(next + 1));
            skip_digits(chars, next + 1)
        } else {
            skip_digits(chars, next)
        }
    } else {
        pos
    }
}

fn parse_word(chars: &Vec<char>, pos: usize, word: &Vec<char>) -> (r: Option<usize>)
    requires
        pos <= chars@.len(),
    ensures
        match (past_word(chars@.skip(pos as int), word@), r) {
            (Some(rest), Some(at)) => {
                &&& at == pos + word@.len()
                &&& at <= chars@.len()
                &&& chars@.skip(at as int) == rest
            },
            (None, None) => true,
            _ => false,
        },
{
    let ghost s = chars@.skip(pos as int);
    if chars.len() - pos < word.len() {
        return None;
    }
    let mut i: usize = 0;
    while i < word.len()
        invariant
            i <= word@.len(),
            pos + word.len() <= chars.len(),
            s == chars@.skip(pos as int),
            forall|j: int| 0 <= j < i ==> chars@[pos + j] == word@[j],
        decreases word@.len() - i,
    {
        if chars[pos + i] != word[i] {
            assert(s.take(word@.len() as int)[i as int] != word@[i as int]);
            return None;
        }
        i = i + 1;
    }
    assert(s.take(word@.len() as int) =~= word@);
    assert(chars@.skip(pos + word@.len()) =~= s.skip(word@.len() as int));
    Some(pos + word.len())
}

fn word_of(which: Option<bool>) -> (r: Vec<char>)
    ensures
        r@ == (match which {
            Some(b) => bool_word(b),
            None => null_word(),
        }),
{
    let text = match which {
        Some(true) => "true",
        Some(false) => "false",
        None => "null",
    };
    let r = crate::text::chars_of(text);
    proof {
        reveal_strlit("true");
        reveal_strlit("false");
        reveal_strlit("null");
        match which {
            Some(b) => {
                assert(r@ =~= bool_word(b));
            },
            None => {
                assert(r@ =~= null_word());
            },
        }
    }
    r
}

fn parse_value(chars: &Vec<char>, pos: usize) -> (r: Option<(Json, usize)>)
    requires
        pos <= chars@.len(),
    ensures
        match (read_value(chars@.skip(pos as int)), r) {
            (Some((v, rest)), Some((got, at))) => {
                &&& got@ == v
                &&& pos < at <= chars@.len()
                &&& chars@.skip(at as int) == rest
            },
            (None, None) => true,
            _ => false,
        },
    decreases chars@.len() - pos, 1nat,
{
    let start: usize = skip_blanks(chars, pos);
    let ghost t = chars@.skip(start as int);
    proof {
        lemma_value_shorter(chars@.skip(pos as int));
    }
    if start >= chars.len() {
        return None;
    }
    let c = chars[start];
    assert(t[0] == c);
    assert(t.drop_first() =~= chars@.skip(start + 1));
    if c == '"' {
        match parse_string(chars, start) {
            Some((text, at)) => Some((Json::Str(text), at)),
            None => None,
        }
    } else if c == '{' {
        let inner: usize = skip_blanks(chars, start + 1);
        let ghost u = chars@.skip(inner as int);
        assert(u.len() > 0 ==> u[0] == chars@[inner as int]);
        if inner < chars.len() && chars[inner] == '}' {
            assert(u.drop_first() =~= chars@.skip(inner + 1));
            let none: Vec<(String, Json)> = Vec::new();
            Some((Json::Object(none), inner + 1))
        } else {
            match parse_fields(chars, inner) {
                Some((fields, at)) => Some((Json::Object(fields), at)),
                None => None,
            }
        }
    } else if c == '[' {
        let inner: usize = skip_blanks(chars, start + 1);
        let ghost u = chars@.skip(inner as int);
        assert(u.len() > 0 ==> u[0] == chars@[inner as int]);
        if inner < chars.len() && chars[inner] == ']' {
            assert(u.drop_first() =~= chars@.skip(inner + 1));
            let none: Vec<Json> = Vec::new();
            Some((Json::Array(none), inner + 1))
        } else {
            match parse_items(chars, inner) {
                Some((items, at)) => Some((Json::Array(items), at)),
                None => None,
            }
        }
    } else if c == 't' {
        match parse_word(chars, start, &word_of(Some(true))) {
            Some(at) => Some((Json::Bool(true), at)),
            None => None,
        }
    } else if c == 'f' {
        match parse_word(chars, start, &word_of(Some(false))) {
            Some(at) => Some((Json::Bool(false), at)),
            None => None,
        }
    } else if c == 'n' {
        match parse_word(chars, start, &word_of(None)) {
            Some(at) => Some((Json::Null, at)),
            None => None,
        }
    } else if c == '-' || ('0' <= c && c <= '9') {
        match parse_number(chars, start) {
            Some((n, at)) => Some((Json::Num(n), at)),
            None => None,
        }
    } else {
        None
    }
}

fn parse_items(chars: &Vec<char>, pos: usize) -> (r: Option<(Vec<Json>, usize)>)
    requires
        pos <= chars@.len(),
    ensures
        match (read_items(chars@.skip(pos as int)), r) {
            (Some((items, rest)), Some((got, at))) => {
                &&& views(got@) == items
                &&& pos < at <= chars@.len()
                &&& chars@.skip(at as int) == rest
            },
            (None, None) => true,
            _ => false,
        },
    decreases chars@.len() - pos, 2nat,
{
    let ghost s = chars@.skip(pos as int);
    let mut items: Vec<Json> = Vec::new();
    let mut i: usize = pos;
    proof {
        lemma_items_shorter(s);
        if let Some((more, rest)) = read_items(s) {
            assert(views(items@) + more =~= more);
        }
    }
    loop
        invariant
            pos <= i <= chars@.len(),
            s == chars@.skip(pos as int),
            read_items(s) == prepended(views(items@), read_items(chars@.skip(i as int))),
            read_items(s) matches Some((more, rest)) ==> rest.len() < s.len(),
        decreases chars@.len() - i,
    {
        let ghost cur = chars@.skip(i as int);
        let ghost had = views(items@);
        proof {
            lemma_value_shorter(cur);
        }
        let (item, after) = match parse_value(chars, i) {
            Some(found) => found,
            None => return None,
        };
        let next: usize = skip_blanks(chars, after);
        let ghost t = chars@.skip(next as int);
        if next >= chars.len() {
            return None;
        }
        assert(t[0] == chars@[next as int]);
        assert(t.drop_first() =~= chars@.skip(next + 1));
        let ghost v = item@;
        let ghost was = items@;
        items.push(item);
        assert(items@.drop_last() =~= was);
        assert(views(items@) =~= had.push(v));
        let c = chars[next];
        if c == ']' {
            assert(views(items@) =~= had + seq![v]);
            return Some((items, next + 1));
        }
        if c != ',' {
            return None;
        }
        i = skip_blanks(chars, next + 1);
        proof {
            if let Some((more, rest)) = read_items(chars@.skip(i as int)) {
                assert(had + (seq![v] + more) =~= views(items@) + more);
            }
        }
    }
}

fn parse_fields(chars: &Vec<char>, pos: usize) -> (r: Option<(Vec<(String, Json)>, usize)>)
    requires
        pos <= chars@.len(),
    ensures
        match (read_fields(chars@.skip(pos as int)), r) {
            (Some((fields, rest)), Some((got, at))) => {
                &&& field_views(got@) == fields
                &&& pos < at <= chars@.len()
                &&& chars@.skip(at as int) == rest
            },
            (None, None) => true,
            _ => false,
        },
    decreases chars@.len() - pos, 2nat,
{
    let ghost s = chars@.skip(pos as int);
    let mut fields: Vec<(String, Json)> = Vec::new();
    let mut i: usize = pos;
    proof {
        lemma_fields_shorter(s);
        if let Some((more, rest)) = read_fields(s) {
            assert(field_views(fields@) + more =~= more);
        }
    }
    loop
        invariant
            pos <= i <= chars@.len(),
            s == chars@.skip(pos as int),
            read_fields(s) == prepended(
                field_views(fields@),
                read_fields(chars@.skip(i as int)),
            ),
            read_fields(s) matches Some((more, rest)) ==> rest.len() < s.len(),
        decreases chars@.len() - i,
    {
        let ghost had = field_views(fields@);
        let start: usize = skip_blanks(chars, i);
        let (key, after) = match parse_string(chars, start) {
            Some(found) => found,
            None => return None,
        };
        let colon: usize = skip_blanks(chars, after);
        let ghost t = chars@.skip(colon as int);
        assert(t.len() > 0 ==> t[0] == chars@[colon as int]);
        if colon >= chars.len() || chars[colon] != ':' {
            return None;
        }
        assert(t.drop_first() =~= chars@.skip(colon + 1));
        proof {
            lemma_value_shorter(chars@.skip(colon + 1));
        }
        let (value, end) = match parse_value(chars, colon + 1) {
            Some(found) => found,
            None => return None,
        };
        let next: usize = skip_blanks(chars, end);
        let ghost u = chars@.skip(next as int);
        if next >= chars.len() {
            return None;
        }
        assert(u[0] == chars@[next as int]);
        assert(u.drop_first() =~= chars@.skip(next + 1));
        let ghost pair = (key@, value@);
        let ghost was = fields@;
        fields.push((key, value));
        assert(fields@.drop_last() =~= was);
        assert(field_views(fields@) =~= had.push(pair));
        let c = chars[next];
        if c == '}' {
            assert(field_views(fields@) =~= had + seq![pair]);
            return Some((fields, next + 1));
        }
        if c != ',' {
            return None;
        }
        i = next + 1;
        proof {
            if let Some((more, rest)) = read_fields(chars@.skip(i as int)) {
                assert(had + (seq![pair] + more) =~= field_views(fields@) + more);
            }
        }
    }
}

impl Json {
    /// Read the value that a text holds, with nothing but blanks around it.
    pub fn parse(text: &str) -> (r: Option<Json>)
        ensures
            r.deep_view() == read(text@),
    {
        let chars = crate::text::chars_of(text);
        assert(chars@.skip(0) =~= chars@);
        let start: usize = skip_blanks(&chars, 0);
        match parse_value(&chars, start) {
            Some((value, at)) => {
                let end: usize = skip_blanks(&chars, at);
                if end == chars.len() {
                    Some(value)
                } else {
                    None
                }
            },
            None => None,
        }
    }

    /// The first field of an object with this key.
    pub fn field(&self, key: &str) -> (r: Option<&Json>)
        ensures
            r.deep_view() == field_in(self@, key@),
    {
        match self {
            Json::Object(fields) => {
                let ghost all = field_views(fields@);
                proof {
                    lemma_field_views(fields@);
                }
                let mut i: usize = 0;
                assert(all.skip(0) =~= all);
                while i < fields.len()
                    invariant
                        i <= fields@.len() == all.len(),
                        all == field_views(fields@),
                        self@ == JsonView::Object(all),
                        forall|j: int|
                            0 <= j < fields@.len() ==> (#[trigger] all[j]) == (
                                fields@[j].0@,
                                fields@[j].1@,
                            ),
                        first_field(all, key@) == first_field(all.skip(i as int), key@),
                    decreases fields@.len() - i,
                {
                    let ghost rest = all.skip(i as int);
                    assert(rest[0] == all[i as int]);
                    assert(rest.drop_first() =~= all.skip(i + 1));
                    if same(&fields[i].0, key) {
                        return Some(&fields[i].1);
                    }
                    i = i + 1;
                }
                None
            },
            _ => None,
        }
    }

    /// The text, where this is a string.
    pub fn as_str(&self) -> (r: Option<&str>)
        ensures
            r.deep_view() == text_in(self@),
    {
        match self {
            Json::Str(s) => Some(s.as_str()),
            _ => None,
        }
    }

    /// The number, where this is one that fits.
    pub fn as_u32(&self) -> (r: Option<u32>)
        ensures
            r == u32_in(self@),
    {
        match self {
            Json::Num(n) => if 0 <= *n && *n <= 0xffff_ffff {
                Some(*n as u32)
            } else {
                None
            },
            _ => None,
        }
    }

    /// The items, where this is an array.
    pub fn as_array(&self) -> (r: Option<&Vec<Json>>)
        ensures
            match r {
                Some(items) => self@ == JsonView::Array(views(items@)),
                None => !(self@ is Array),
            },
    {
        match self {
            Json::Array(items) => Some(items),
            _ => None,
        }
    }
}

/// The value of the first field with this key.
pub open spec fn first_field(
    fields: Seq<(Seq<char>, JsonView)>,
    key: Seq<char>,
) -> Option<JsonView>
    decreases fields.len(),
{
    if fields.len() == 0 {
        None
    } else if fields[0].0 == key {
        Some(fields[0].1)
    } else {
        first_field(fields.drop_first(), key)
    }
}

/// The value of the first field of an object with this key.
pub open spec fn field_in(value: JsonView, key: Seq<char>) -> Option<JsonView> {
    match value {
        JsonView::Object(fields) => first_field(fields, key),
        _ => None,
    }
}

/// The text of a string.
pub open spec fn text_in(value: JsonView) -> Option<Seq<char>> {
    match value {
        JsonView::Str(text) => Some(text),
        _ => None,
    }
}

/// A number that fits.
pub open spec fn u32_in(value: JsonView) -> Option<u32> {
    match value {
        JsonView::Num(n) => if 0 <= n <= u32::MAX {
            Some(n as u32)
        } else {
            None
        },
        _ => None,
    }
}

/// The hexadecimal digit for a value below sixteen.
pub open spec fn hex_char(d: int) -> char {
    if d < 10 {
        (('0' as u32) + d) as char
    } else {
        (('a' as u32) + (d - 10)) as char
    }
}

/// One character as it stands in a string.
pub open spec fn escaped_char(c: char) -> Seq<char> {
    if c == '"' {
        seq!['\\', '"']
    } else if c == '\\' {
        seq!['\\', '\\']
    } else if c == '\n' {
        seq!['\\', 'n']
    } else if c == '\r' {
        seq!['\\', 'r']
    } else if c == '\t' {
        seq!['\\', 't']
    } else if c <= '\u{1f}' {
        seq!['\\', 'u', '0', '0', hex_char((c as u32) as int / 16), hex_char((c as u32) as int % 16)]
    } else {
        seq![c]
    }
}

/// A text as it stands between quotes.
pub open spec fn escaped(s: Seq<char>) -> Seq<char>
    decreases s.len(),
{
    if s.len() == 0 {
        Seq::empty()
    } else {
        escaped_char(s[0]) + escaped(s.drop_first())
    }
}

/// A text as a string.
pub open spec fn quoted(s: Seq<char>) -> Seq<char> {
    seq!['"'] + escaped(s) + seq!['"']
}

/// A number in decimal, with a minus sign where it is negative.
pub open spec fn signed(n: int) -> Seq<char> {
    if n < 0 {
        seq!['-'] + decimal((-n) as nat)
    } else {
        decimal(n as nat)
    }
}

/// A value as text, with no blanks between its parts.
pub open spec fn written(value: JsonView) -> Seq<char>
    decreases value,
{
    match value {
        JsonView::Null => null_word(),
        JsonView::Bool(b) => bool_word(b),
        JsonView::Num(n) => signed(n as int),
        JsonView::Str(s) => quoted(s),
        JsonView::Array(items) => seq!['['] + items_written(items) + seq![']'],
        JsonView::Object(fields) => seq!['{'] + fields_written(fields) + seq!['}'],
    }
}

/// The items of an array as text, with commas between them.
pub open spec fn items_written(items: Seq<JsonView>) -> Seq<char>
    decreases items,
{
    if items.len() == 0 {
        Seq::empty()
    } else if items.len() == 1 {
        written(items[0])
    } else {
        written(items[0]) + (seq![','] + items_written(items.drop_first()))
    }
}

/// One field of an object as text.
pub open spec fn field_written(field: (Seq<char>, JsonView)) -> Seq<char>
    decreases field,
{
    quoted(field.0) + (seq![':'] + written(field.1))
}

/// The fields of an object as text, with commas between them.
pub open spec fn fields_written(fields: Seq<(Seq<char>, JsonView)>) -> Seq<char>
    decreases fields,
{
    if fields.len() == 0 {
        Seq::empty()
    } else if fields.len() == 1 {
        field_written(fields[0])
    } else {
        field_written(fields[0]) + (seq![','] + fields_written(fields.drop_first()))
    }
}

/// True when `s` does not go on with something that could be part of the value before it.
pub open spec fn delimited(s: Seq<char>) -> bool {
    s.len() == 0 || s[0] == ',' || s[0] == ']' || s[0] == '}'
}

proof fn lemma_escape_read(c: char, rest: Seq<char>)
    ensures
        ({
            let s = escaped_char(c) + rest;
            if escaped_char(c).len() > 1 {
                s[0] == '\\' && read_escape(s.drop_first()) == Some((c, rest))
            } else {
                s[0] == c && c != '"' && c != '\\' && s.drop_first() == rest
            }
        }),
{
    let e = escaped_char(c);
    let s = e + rest;
    let t = s.drop_first();
    if e.len() == 1 {
        assert(t =~= rest);
    } else if e.len() == 2 {
        assert(t.drop_first() =~= rest);
    } else {
        let n = (c as u32) as int;
        let u = t.drop_first();
        assert(t[0] == 'u');
        assert(u =~= seq!['0', '0', hex_char(n / 16), hex_char(n % 16)] + rest);
        let digits = u.take(4);
        assert(digits =~= seq!['0', '0', hex_char(n / 16), hex_char(n % 16)]);
        assert(u[0] == '0');
        assert(digits.drop_last() =~= seq!['0', '0', hex_char(n / 16)]);
        assert(digits.drop_last().drop_last() =~= seq!['0', '0']);
        assert(digits.drop_last().drop_last().drop_last() =~= seq!['0']);
        reveal_with_fuel(hex_value, 5);
        assert(hex_value(digits) == Some(n as nat));
        assert(u.skip(4) =~= rest);
        assert(scalar(n as nat) == Some(c));
    }
}

/// A text put between quotes reads back as itself.
pub proof fn lemma_string_read(s: Seq<char>, rest: Seq<char>)
    ensures
        read_body(escaped(s) + (seq!['"'] + rest)) == Some((s, rest)),
    decreases s.len(),
{
    let tail = seq!['"'] + rest;
    if s.len() == 0 {
        assert(escaped(s) + tail =~= tail);
        assert(tail.drop_first() =~= rest);
        assert(s =~= Seq::empty());
    } else {
        let c = s[0];
        let more = s.drop_first();
        let after = escaped(more) + tail;
        lemma_string_read(more, rest);
        assert(escaped(s) + tail =~= escaped_char(c) + after);
        lemma_escape_read(c, after);
        assert(seq![c] + more =~= s);
    }
}

proof fn lemma_quoted_read(s: Seq<char>, rest: Seq<char>)
    ensures
        read_string(quoted(s) + rest) == Some((s, rest)),
        quoted(s).len() > 0,
        quoted(s)[0] == '"',
{
    let t = quoted(s) + rest;
    assert(t.drop_first() =~= escaped(s) + (seq!['"'] + rest));
    lemma_string_read(s, rest);
}

proof fn lemma_decimal(n: nat)
    ensures
        decimal(n).len() > 0,
        all_digits(decimal(n)),
        digits_value(decimal(n)) == n,
    decreases n,
{
    if n < 10 {
        assert(decimal(n).drop_last() =~= Seq::empty());
        reveal_with_fuel(digits_value, 2);
    } else {
        lemma_decimal(n / 10);
        assert(decimal(n).drop_last() =~= decimal(n / 10));
        assert forall|i: int| 0 <= i < decimal(n).len() implies is_digit(
            #[trigger] decimal(n)[i],
        ) by {
            if i < decimal(n / 10).len() {
                assert(decimal(n)[i] == decimal(n / 10)[i]);
            }
        }
    }
}

proof fn lemma_number_read(n: i64, rest: Seq<char>)
    requires
        delimited(rest),
    ensures
        read_number(signed(n as int) + rest) == Some((n, rest)),
        signed(n as int).len() > 0,
        signed(n as int)[0] == '-' || is_digit(signed(n as int)[0]),
{
    let size = if n < 0 {
        (-n) as nat
    } else {
        n as nat
    };
    lemma_decimal(size);
    let d = decimal(size);
    let s = signed(n as int) + rest;
    let t = d + rest;
    assert(is_digit(d[0]));
    if n < 0 {
        assert(s.drop_first() =~= t);
    } else {
        assert(s =~= t);
    }
    assert forall|i: int| 0 <= i < d.len() implies is_digit(#[trigger] t[i]) by {
        assert(t[i] == d[i]);
    }
    lemma_digit_run_is(t, d.len());
    assert(t.take(d.len() as int) =~= d);
    assert(t.skip(d.len() as int) =~= rest);
}

proof fn lemma_starts(value: JsonView)
    ensures
        written(value).len() > 0,
        !blank(written(value)[0]),
        written(value)[0] != ']',
        written(value)[0] != '}',
{
    match value {
        JsonView::Num(n) => {
            lemma_number_read(n, Seq::empty());
        },
        _ => {},
    }
}

/// A value written out reads back as itself, whatever stands after it.
pub proof fn lemma_value_read(value: JsonView, rest: Seq<char>)
    requires
        delimited(rest),
    ensures
        read_value(written(value) + rest) == Some((value, rest)),
    decreases value, 1nat,
{
    let s = written(value) + rest;
    lemma_starts(value);
    assert(s[0] == written(value)[0]);
    assert(past_blanks(s) == s);
    match value {
        JsonView::Null => {
            assert(s.take(4) =~= null_word());
            assert(s.skip(4) =~= rest);
        },
        JsonView::Bool(b) => {
            let n = bool_word(b).len() as int;
            assert(s.take(n) =~= bool_word(b));
            assert(s.skip(n) =~= rest);
        },
        JsonView::Num(n) => {
            lemma_number_read(n, rest);
        },
        JsonView::Str(text) => {
            lemma_quoted_read(text, rest);
        },
        JsonView::Array(items) => {
            lemma_array_read(items, rest);
        },
        JsonView::Object(fields) => {
            lemma_object_read(fields, rest);
        },
    }
}

proof fn lemma_array_read(items: Seq<JsonView>, rest: Seq<char>)
    ensures
        read_value(written(JsonView::Array(items)) + rest) == Some((JsonView::Array(items), rest)),
    decreases JsonView::Array(items), 0nat,
{
    let s = written(JsonView::Array(items)) + rest;
    assert(past_blanks(s) == s);
    let inner = items_written(items) + (seq![']'] + rest);
    assert(s.drop_first() =~= inner);
    if items.len() == 0 {
        assert(inner =~= seq![']'] + rest);
        assert(past_blanks(inner) == inner);
        assert(inner.drop_first() =~= rest);
        assert(items =~= Seq::empty());
    } else {
        lemma_starts(items[0]);
        assert(inner[0] == written(items[0])[0]);
        assert(past_blanks(inner) == inner);
        lemma_items_read(items, rest);
    }
}

proof fn lemma_object_read(fields: Seq<(Seq<char>, JsonView)>, rest: Seq<char>)
    ensures
        read_value(written(JsonView::Object(fields)) + rest) == Some(
            (JsonView::Object(fields), rest),
        ),
    decreases JsonView::Object(fields), 0nat,
{
    let s = written(JsonView::Object(fields)) + rest;
    assert(past_blanks(s) == s);
    let inner = fields_written(fields) + (seq!['}'] + rest);
    assert(s.drop_first() =~= inner);
    if fields.len() == 0 {
        assert(inner =~= seq!['}'] + rest);
        assert(past_blanks(inner) == inner);
        assert(inner.drop_first() =~= rest);
        assert(fields =~= Seq::empty());
    } else {
        assert(field_written(fields[0])[0] == '"');
        assert(inner[0] == '"');
        assert(past_blanks(inner) == inner);
        lemma_fields_read(fields, rest);
    }
}

proof fn lemma_items_read(items: Seq<JsonView>, rest: Seq<char>)
    requires
        items.len() > 0,
    ensures
        read_items(items_written(items) + (seq![']'] + rest)) == Some((items, rest)),
    decreases items, 0nat,
{
    let s = items_written(items) + (seq![']'] + rest);
    let v = items[0];
    lemma_starts(v);
    if items.len() == 1 {
        let after = seq![']'] + rest;
        lemma_value_read(v, after);
        assert(past_blanks(after) == after);
        assert(after.drop_first() =~= rest);
        assert(seq![v] =~= items);
    } else {
        let more = items.drop_first();
        let follow = items_written(more) + (seq![']'] + rest);
        let after = seq![','] + follow;
        assert(s =~= written(v) + after);
        lemma_value_read(v, after);
        assert(past_blanks(after) == after);
        assert(after.drop_first() =~= follow);
        lemma_starts(more[0]);
        assert(follow[0] == written(more[0])[0]);
        assert(past_blanks(follow) == follow);
        lemma_items_read(more, rest);
        assert(seq![v] + more =~= items);
    }
}

proof fn lemma_fields_read(fields: Seq<(Seq<char>, JsonView)>, rest: Seq<char>)
    requires
        fields.len() > 0,
    ensures
        read_fields(fields_written(fields) + (seq!['}'] + rest)) == Some((fields, rest)),
    decreases fields, 0nat,
{
    let s = fields_written(fields) + (seq!['}'] + rest);
    let (key, v) = fields[0];
    let more = fields.drop_first();
    let follow = fields_written(more) + (seq!['}'] + rest);
    let after = if fields.len() == 1 {
        seq!['}'] + rest
    } else {
        seq![','] + follow
    };
    let value_on = written(v) + after;
    let colon_on = seq![':'] + value_on;
    assert(field_written(fields[0]) == quoted(key) + (seq![':'] + written(v)));
    assert(s =~= quoted(key) + colon_on);
    lemma_quoted_read(key, colon_on);
    assert(s[0] == '"');
    assert(past_blanks(s) == s);
    assert(past_blanks(colon_on) == colon_on);
    assert(colon_on.drop_first() =~= value_on);
    assert(decreases_to!(fields => fields[0].1));
    lemma_value_read(v, after);
    assert(past_blanks(after) == after);
    lemma_starts(v);
    if fields.len() == 1 {
        assert(after.drop_first() =~= rest);
        assert(seq![(key, v)] =~= fields);
    } else {
        assert(after.drop_first() =~= follow);
        lemma_fields_read(more, rest);
        assert(seq![(key, v)] + more =~= fields);
    }
}

/// What is written reads back: reading the text of any value gives that value.
pub proof fn law_read_back(value: JsonView)
    ensures
        read(written(value)) == Some(value),
{
    let s = written(value);
    lemma_starts(value);
    assert(past_blanks(s) == s);
    assert(s + Seq::empty() =~= s);
    lemma_value_read(value, Seq::empty());
    assert(past_blanks(Seq::<char>::empty()).len() == 0);
}

fn hex_char_of(d: u32) -> (r: char)
    requires
        d < 16,
    ensures
        r == hex_char(d as int),
{
    if d < 10 {
        (48u8 + (d as u8)) as char
    } else {
        (97u8 + ((d - 10) as u8)) as char
    }
}

fn write_char(c: char, out: &mut String)
    ensures
        final(out)@ == old(out)@ + escaped_char(c),
{
    let ghost had = out@;
    if c == '"' {
        out.push('\\');
        out.push('"');
    } else if c == '\\' {
        out.push('\\');
        out.push('\\');
    } else if c == '\n' {
        out.push('\\');
        out.push('n');
    } else if c == '\r' {
        out.push('\\');
        out.push('r');
    } else if c == '\t' {
        out.push('\\');
        out.push('t');
    } else if c <= '\u{1f}' {
        let n: u32 = c as u32;
        out.push('\\');
        out.push('u');
        out.push('0');
        out.push('0');
        out.push(hex_char_of(n / 16));
        out.push(hex_char_of(n % 16));
    } else {
        out.push(c);
    }
    assert(out@ =~= had + escaped_char(c));
}

fn write_string(s: &str, out: &mut String)
    ensures
        final(out)@ == old(out)@ + quoted(s@),
{
    let chars = crate::text::chars_of(s);
    let ghost start = out@;
    out.push('"');
    let mut i: usize = 0;
    assert(chars@.skip(0) =~= chars@);
    while i < chars.len()
        invariant
            i <= chars@.len(),
            out@ + escaped(chars@.skip(i as int)) == start.push('"') + escaped(chars@),
        decreases chars@.len() - i,
    {
        let ghost rest = chars@.skip(i as int);
        let ghost had = out@;
        assert(rest[0] == chars@[i as int]);
        assert(rest.drop_first() =~= chars@.skip(i + 1));
        write_char(chars[i], out);
        assert(out@ + escaped(rest.drop_first()) =~= had + escaped(rest));
        i = i + 1;
    }
    assert(out@ + escaped(chars@.skip(i as int)) =~= out@);
    out.push('"');
    assert(out@ =~= start + quoted(s@));
}

/// What is still to be written of the items of an array once the first `i` were.
spec fn items_left(items: Seq<JsonView>, i: int) -> Seq<char> {
    if i == 0 {
        items_written(items)
    } else if i < items.len() {
        seq![','] + items_written(items.skip(i))
    } else {
        Seq::empty()
    }
}

proof fn lemma_items_left(items: Seq<JsonView>, i: int)
    requires
        0 <= i < items.len(),
    ensures
        items_left(items, i) == (if i > 0 {
            seq![',']
        } else {
            Seq::<char>::empty()
        }) + written(items[i]) + items_left(items, i + 1),
{
    let rest = items.skip(i);
    assert(items.skip(0) =~= items);
    assert(rest[0] == items[i]);
    assert(rest.drop_first() =~= items.skip(i + 1));
    assert(items_left(items, i) =~= (if i > 0 {
        seq![',']
    } else {
        Seq::<char>::empty()
    }) + written(items[i]) + items_left(items, i + 1));
}

/// What is still to be written of the fields of an object once the first `i` were.
spec fn fields_left(fields: Seq<(Seq<char>, JsonView)>, i: int) -> Seq<char> {
    if i == 0 {
        fields_written(fields)
    } else if i < fields.len() {
        seq![','] + fields_written(fields.skip(i))
    } else {
        Seq::empty()
    }
}

proof fn lemma_fields_left(fields: Seq<(Seq<char>, JsonView)>, i: int)
    requires
        0 <= i < fields.len(),
    ensures
        fields_left(fields, i) == (if i > 0 {
            seq![',']
        } else {
            Seq::<char>::empty()
        }) + quoted(fields[i].0) + seq![':'] + written(fields[i].1) + fields_left(fields, i + 1),
{
    let rest = fields.skip(i);
    assert(fields.skip(0) =~= fields);
    assert(rest[0] == fields[i]);
    assert(rest.drop_first() =~= fields.skip(i + 1));
    assert(field_written(fields[i]) == quoted(fields[i].0) + (seq![':'] + written(fields[i].1)));
    assert(fields_left(fields, i) =~= (if i > 0 {
        seq![',']
    } else {
        Seq::<char>::empty()
    }) + quoted(fields[i].0) + seq![':'] + written(fields[i].1) + fields_left(fields, i + 1));
}

impl Json {
    /// Write the value at the end of `out`.
    pub fn write(&self, out: &mut String)
        ensures
            final(out)@ == old(out)@ + written(self@),
        decreases self,
    {
        let ghost start = out@;
        match self {
            Json::Null => {
                proof {
                    reveal_strlit("null");
                    assert("null"@ =~= null_word());
                }
                out.append("null");
            },
            Json::Bool(b) => {
                proof {
                    reveal_strlit("true");
                    reveal_strlit("false");
                    assert("true"@ =~= bool_word(true));
                    assert("false"@ =~= bool_word(false));
                }
                if *b {
                    out.append("true");
                } else {
                    out.append("false");
                }
            },
            Json::Num(n) => {
                let size: u64 = if *n == i64::MIN {
                    0x8000_0000_0000_0000
                } else if *n < 0 {
                    (-*n) as u64
                } else {
                    *n as u64
                };
                if *n < 0 {
                    out.push('-');
                }
                out.append(&decimal_of(size));
                assert(out@ =~= start + signed(*n as int));
            },
            Json::Str(s) => write_string(s, out),
            Json::Array(items) => {
                let ghost all = views(items@);
                proof {
                    lemma_views(items@);
                }
                out.push('[');
                let mut i: usize = 0;
                while i < items.len()
                    invariant
                        i <= items@.len() == all.len(),
                        *self == Json::Array(*items),
                        forall|j: int| 0 <= j < items@.len() ==> (#[trigger] all[j]) == items@[j]@,
                        out@ + items_left(all, i as int) == start.push('[') + items_written(all),
                    decreases items@.len() - i,
                {
                    proof {
                        lemma_items_left(all, i as int);
                    }
                    let ghost had = out@;
                    if i > 0 {
                        out.push(',');
                    }
                    assert(decreases_to!(*self => self->Array_0));
                    assert(decreases_to!(self->Array_0 => self->Array_0@));
                    assert(decreases_to!(items@ => items@[i as int]));
                    assert(decreases_to!(self => items@[i as int]));
                    items[i].write(out);
                    assert(out@ + items_left(all, i + 1) =~= had + items_left(all, i as int));
                    i = i + 1;
                }
                assert(items_left(all, i as int) =~= Seq::empty());
                assert(out@ =~= start.push('[') + items_written(all));
                out.push(']');
                assert(out@ =~= start + written(self@));
            },
            Json::Object(fields) => {
                let ghost all = field_views(fields@);
                proof {
                    lemma_field_views(fields@);
                }
                out.push('{');
                let mut i: usize = 0;
                while i < fields.len()
                    invariant
                        i <= fields@.len() == all.len(),
                        *self == Json::Object(*fields),
                        forall|j: int|
                            0 <= j < fields@.len() ==> (#[trigger] all[j]) == (
                                fields@[j].0@,
                                fields@[j].1@,
                            ),
                        out@ + fields_left(all, i as int) == start.push('{') + fields_written(all),
                    decreases fields@.len() - i,
                {
                    proof {
                        lemma_fields_left(all, i as int);
                    }
                    let ghost had = out@;
                    if i > 0 {
                        out.push(',');
                    }
                    write_string(&fields[i].0, out);
                    out.push(':');
                    assert(decreases_to!(*self => self->Object_0));
                    assert(decreases_to!(self->Object_0 => self->Object_0@));
                    assert(decreases_to!(fields@ => fields@[i as int]));
                    assert(decreases_to!(fields@[i as int] => fields@[i as int].1));
                    assert(decreases_to!(self => fields@[i as int].1));
                    fields[i].1.write(out);
                    assert(out@ + fields_left(all, i + 1) =~= had + fields_left(all, i as int));
                    i = i + 1;
                }
                assert(fields_left(all, i as int) =~= Seq::empty());
                assert(out@ =~= start.push('{') + fields_written(all));
                out.push('}');
                assert(out@ =~= start + written(self@));
            },
        }
    }
}

} // verus!
