//! Text helpers: blank strings, decimal numbers, joining and padding.

use vstd::prelude::*;
use vstd::string::*;

verus! {

/// The characters that have the Unicode property `White_Space`.
pub open spec fn white_space(c: char) -> bool {
    ||| '\u{9}' <= c <= '\u{d}'
    ||| c == '\u{20}'
    ||| c == '\u{85}'
    ||| c == '\u{a0}'
    ||| c == '\u{1680}'
    ||| '\u{2000}' <= c <= '\u{200a}'
    ||| c == '\u{2028}'
    ||| c == '\u{2029}'
    ||| c == '\u{202f}'
    ||| c == '\u{205f}'
    ||| c == '\u{3000}'
}

/// `char::is_whitespace` of the standard library: documented to return whether
/// the character has the Unicode property `White_Space`, whose members
/// [`white_space`] lists.
pub assume_specification[ char::is_whitespace ](c: char) -> (b: bool)
    ensures
        b == white_space(c),
;

/// Nothing but white space: what is left after trimming is empty.
pub open spec fn blank(s: Seq<char>) -> bool {
    forall|i: int| 0 <= i < s.len() ==> white_space(#[trigger] s[i])
}

/// Tells whether `s` is empty once trimmed.
pub fn is_blank(s: &str) -> (b: bool)
    ensures
        b == blank(s@),
{
    for c in it: s.chars()
        invariant
            it.seq() == s@,
            forall|i: int| 0 <= i < it.index() ==> white_space(#[trigger] s@[i]),
    {
        assert(c == s@[it.index()]);
        if !c.is_whitespace() {
            return false;
        }
    }
    true
}

/// The characters of `s`, in order.
pub fn characters(s: &str) -> (r: Vec<char>)
    ensures
        r@ == s@,
{
    let mut r: Vec<char> = Vec::new();
    for c in it: s.chars()
        invariant
            it.seq() == s@,
            r@ == s@.take(it.index()),
    {
        r.push(c);
    }
    r
}

/// The decimal digit of value `d`.
pub open spec fn digit(d: int) -> char {
    ('0' as int + d) as char
}

/// `n` in base ten, without leading zeros.
pub open spec fn decimal_nat(n: nat) -> Seq<char>
    decreases n,
{
    if n < 10 {
        seq![digit(n as int)]
    } else {
        decimal_nat(n / 10).push(digit((n % 10) as int))
    }
}

/// `n` in base ten, with a minus sign where it is negative.
pub open spec fn decimal(n: int) -> Seq<char> {
    if n < 0 {
        seq!['-'] + decimal_nat((-n) as nat)
    } else {
        decimal_nat(n as nat)
    }
}

fn digit_text(d: u64) -> (r: &'static str)
    requires
        d < 10,
    ensures
        r@ == seq![digit(d as int)],
{
    proof {
        reveal_strlit("0");
        reveal_strlit("1");
        reveal_strlit("2");
        reveal_strlit("3");
        reveal_strlit("4");
        reveal_strlit("5");
        reveal_strlit("6");
        reveal_strlit("7");
        reveal_strlit("8");
        reveal_strlit("9");
    }
    if d == 0 {
        "0"
    } else if d == 1 {
        "1"
    } else if d == 2 {
        "2"
    } else if d == 3 {
        "3"
    } else if d == 4 {
        "4"
    } else if d == 5 {
        "5"
    } else if d == 6 {
        "6"
    } else if d == 7 {
        "7"
    } else if d == 8 {
        "8"
    } else {
        "9"
    }
}

/// Writes `n` in base ten.
pub fn natural_text(n: u64) -> (r: String)
    ensures
        r@ == decimal_nat(n as nat),
    decreases n,
{
    if n < 10 {
        digit_text(n).to_owned()
    } else {
        let head = natural_text(n / 10);
        let r = head.concat(digit_text(n % 10));
        assert(r@ =~= decimal_nat((n / 10) as nat).push(digit((n % 10) as int)));
        r
    }
}

/// Writes `n` in base ten.
pub fn decimal_text(n: i64) -> (r: String)
    ensures
        r@ == decimal(n as int),
{
    if n < 0 {
        let magnitude: u64 = (0 - (n as i128)) as u64;
        proof {
            reveal_strlit("-");
        }
        let r = "-".to_owned().concat(natural_text(magnitude).as_str());
        assert(r@ =~= seq!['-'] + decimal_nat((-n) as nat));
        r
    } else {
        natural_text(n as u64)
    }
}

/// A decimal digit.
pub open spec fn is_digit(c: char) -> bool {
    '0' <= c <= '9'
}

/// The value of a string of decimal digits.
pub open spec fn digits_value(s: Seq<char>) -> nat
    decreases s.len(),
{
    if s.len() == 0 {
        0
    } else {
        digits_value(s.drop_last()) * 10 + (s.last() as int - '0' as int) as nat
    }
}

/// What is left of a number once its sign, if any, is taken off.
pub open spec fn unsigned_part(s: Seq<char>) -> Seq<char> {
    if s.len() > 0 && (s[0] == '+' || s[0] == '-') {
        s.drop_first()
    } else {
        s
    }
}

/// The integer that `s` writes: an optional sign and at least one digit.
pub open spec fn integer_value(s: Seq<char>) -> Option<int> {
    let body = unsigned_part(s);
    if body.len() == 0 || exists|i: int| 0 <= i < body.len() && !is_digit(#[trigger] body[i]) {
        None
    } else if s[0] == '-' {
        Some(-(digits_value(body) as int))
    } else {
        Some(digits_value(body) as int)
    }
}

proof fn lemma_digits_prefix(s: Seq<char>, k: int)
    requires
        0 <= k <= s.len(),
        forall|i: int| 0 <= i < s.len() ==> is_digit(#[trigger] s[i]),
    ensures
        digits_value(s.take(k)) <= digits_value(s),
    decreases s.len(),
{
    if k == s.len() {
        assert(s.take(k) =~= s);
    } else {
        lemma_digits_prefix(s.drop_last(), k);
        assert(s.drop_last().take(k) =~= s.take(k));
    }
}

/// Reads a signed 64-bit integer, the whole of `s`.
pub fn parse_integer(s: &str) -> (r: Option<i64>)
    ensures
        r == match integer_value(s@) {
            Some(v) => if i64::MIN <= v <= i64::MAX {
                Some(v as i64)
            } else {
                None
            },
            None => None,
        },
{
    let chars = characters(s);
    let mut start: usize = 0;
    let mut negative: bool = false;
    if chars.len() > 0 && (chars[0] == '+' || chars[0] == '-') {
        negative = chars[0] == '-';
        start = 1;
    }
    let ghost body = unsigned_part(s@);
    assert(body =~= chars@.skip(start as int));
    if start == chars.len() {
        return None;
    }
    let mut k: usize = start;
    while k < chars.len()
        invariant
            start <= k <= chars.len(),
            body == chars@.skip(start as int),
            forall|i: int| start <= i < k ==> is_digit(#[trigger] chars@[i]),
            forall|i: int| 0 <= i < k - start ==> is_digit(#[trigger] body[i]),
            body == unsigned_part(s@),
        decreases chars.len() - k,
    {
        let c = chars[k];
        assert(body[k - start] == c);
        if !('0' <= c && c <= '9') {
            return None;
        }
        k = k + 1;
    }
    let mut value: u128 = 0;
    let limit: u128 = 0x8000_0000_0000_0000;
    k = start;
    assert(body.take(0) =~= Seq::<char>::empty());
    while k < chars.len()
        invariant
            start <= k <= chars.len(),
            body == chars@.skip(start as int),
            body.len() > 0,
            body == unsigned_part(s@),
            forall|i: int| 0 <= i < body.len() ==> is_digit(#[trigger] body[i]),
            limit == 0x8000_0000_0000_0000,
            value <= limit,
            value == digits_value(body.take(k - start)),
        decreases chars.len() - k,
    {
        let c = chars[k];
        assert(body[k - start] == c);
        assert(is_digit(c));
        let d: u32 = (c as u32) - ('0' as u32);
        assert(body.take(k + 1 - start).drop_last() =~= body.take(k - start));
        value = value * 10 + d as u128;
        k = k + 1;
        if value > limit {
            proof {
                lemma_digits_prefix(body, k - start);
            }
            return None;
        }
    }
    assert(body.take(k - start) =~= body);
    if negative {
        Some((0 - (value as i128)) as i64)
    } else if value == limit {
        None
    } else {
        Some(value as i64)
    }
}

/// The lines of `parts`, with `sep` between one and the next.
pub open spec fn joined(parts: Seq<Seq<char>>, sep: Seq<char>) -> Seq<char>
    decreases parts.len(),
{
    if parts.len() == 0 {
        Seq::empty()
    } else if parts.len() == 1 {
        parts[0]
    } else {
        joined(parts.drop_last(), sep) + sep + parts.last()
    }
}

/// The characters of each string.
pub open spec fn texts(v: Seq<String>) -> Seq<Seq<char>> {
    Seq::new(v.len(), |i: int| v[i]@)
}

/// Writes `parts` one behind the other, with `sep` between them.
pub fn join(parts: &Vec<String>, sep: &str) -> (r: String)
    ensures
        r@ == joined(texts(parts@), sep@),
{
    let mut r: String = String::new();
    let mut i: usize = 0;
    while i < parts.len()
        invariant
            i <= parts.len(),
            r@ == joined(texts(parts@).take(i as int), sep@),
        decreases parts.len() - i,
    {
        assert(texts(parts@).take(i + 1).drop_last() =~= texts(parts@).take(i as int));
        if i > 0 {
            r.append(sep);
        }
        r.append(parts[i].as_str());
        assert(r@ =~= joined(texts(parts@).take(i + 1), sep@));
        i = i + 1;
    }
    assert(texts(parts@).take(i as int) =~= texts(parts@));
    r
}

/// `s` followed by as many spaces as make it `width` characters long.
pub open spec fn padded(s: Seq<char>, width: nat) -> Seq<char>
    decreases width - s.len(),
{
    if s.len() >= width {
        s
    } else {
        padded(s.push(' '), width)
    }
}

/// Left-aligns `s` in a column of `width` characters.
pub fn pad(s: &str, width: usize) -> (r: String)
    ensures
        r@ == padded(s@, width as nat),
{
    let mut r: String = s.to_owned();
    let mut n: usize = s.unicode_len();
    proof {
        reveal_strlit(" ");
    }
    while n < width
        invariant
            n == r@.len(),
            " "@ == seq![' '],
            padded(r@, width as nat) == padded(s@, width as nat),
        decreases width - n,
    {
        assert(r@ + " "@ =~= r@.push(' '));
        r.append(" ");
        n = n + 1;
    }
    r
}

/// The text of an optional string.
pub open spec fn optional(o: Option<String>) -> Option<Seq<char>> {
    match o {
        Some(s) => Some(s@),
        None => None,
    }
}

/// The text of an optional string slice.
pub open spec fn optional_slice(o: Option<&str>) -> Option<Seq<char>> {
    match o {
        Some(s) => Some(s@),
        None => None,
    }
}

/// Tells whether two strings have the same characters.
pub fn same(a: &str, b: &str) -> (r: bool)
    ensures
        r == (a@ == b@),
{
    a.to_owned() == b.to_owned()
}

/// A copy of an optional string slice.
pub fn owned(o: Option<&str>) -> (r: Option<String>)
    ensures
        optional(r) == optional_slice(o),
{
    match o {
        Some(s) => Some(s.to_owned()),
        None => None,
    }
}

/// A copy of a list of strings.
pub fn copy_texts(v: &Vec<String>) -> (r: Vec<String>)
    ensures
        r@ == v@,
{
    let mut r: Vec<String> = Vec::new();
    let mut i: usize = 0;
    while i < v.len()
        invariant
            i <= v.len(),
            r@ == v@.take(i as int),
        decreases v.len() - i,
    {
        r.push(v[i].clone());
        i = i + 1;
    }
    r
}

/// A copy of an optional string.
pub fn copy_optional(o: &Option<String>) -> (r: Option<String>)
    ensures
        r == *o,
{
    match o {
        Some(s) => Some(s.clone()),
        None => None,
    }
}

// ---------------------------------------------------------------------------
// Laws
// ---------------------------------------------------------------------------

/// The ten decimal digits.
pub open spec fn numerals() -> Seq<char> {
    seq!['0', '1', '2', '3', '4', '5', '6', '7', '8', '9']
}

proof fn lemma_digits(d: int)
    requires
        0 <= d < 10,
    ensures
        digit(d) == numerals()[d],
        digit(d) as int == '0' as int + d,
        is_digit(digit(d)),
        digit(d) != '-',
        digit(d) != '+',
{
    assert(numerals()[d] as int == '0' as int + d);
}

/// A number below ten is written as its digit; a digit behind a number other than
/// zero multiplies it by ten and adds the digit; a number below zero is written
/// as a minus sign before the number without it.
pub proof fn law_decimals_are_base_ten(n: int, d: int)
    requires
        n > 0,
        0 <= d < 10,
    ensures
        decimal(d) == seq![numerals()[d]],
        decimal(10 * n + d) == decimal(n).push(numerals()[d]),
        decimal(-n) == seq!['-'] + decimal(n),
        decimal_nat(n as nat) == decimal(n),
        decimal_nat(0) == decimal(0),
{
    lemma_digits(d);
    assert((10 * n + d) / 10 == n);
    assert((10 * n + d) % 10 == d);
}

proof fn lemma_decimal_nat(n: nat)
    ensures
        decimal_nat(n).len() > 0,
        forall|i: int| 0 <= i < decimal_nat(n).len() ==> is_digit(#[trigger] decimal_nat(n)[i]),
        digits_value(decimal_nat(n)) == n,
        n > 0 ==> decimal_nat(n)[0] != '0',
    decreases n,
{
    reveal_with_fuel(digits_value, 2);
    let s = decimal_nat(n);
    lemma_digits((n % 10) as int);
    if n < 10 {
        lemma_digits(n as int);
        assert(s.drop_last() =~= Seq::<char>::empty());
    } else {
        lemma_decimal_nat(n / 10);
        assert(s.drop_last() =~= decimal_nat(n / 10));
    }
}

/// What is written in base ten reads back as the number that it was, so different
/// numbers are written differently. No zero leads, and nothing but a number below
/// zero has a sign.
pub proof fn law_decimals_read_back(n: int)
    ensures
        integer_value(decimal(n)) == Some(n),
        decimal(n).len() > 0,
        decimal(n)[0] == '-' <==> n < 0,
        decimal(n)[0] == '0' <==> n == 0,
        decimal(n)[0] != '+',
{
    lemma_digits(0);
    if n < 0 {
        lemma_decimal_nat((-n) as nat);
        assert(unsigned_part(decimal(n)) =~= decimal_nat((-n) as nat));
    } else {
        lemma_decimal_nat(n as nat);
        assert(is_digit(decimal(n)[0]));
        if n == 0 {
            assert(decimal(0) =~= seq![digit(0)]);
        }
    }
}

/// A text is an integer exactly where it holds at least one digit and nothing but
/// digits, behind a sign where there is one.
pub proof fn law_integers_are_signed_digits(s: Seq<char>)
    ensures
        integer_value(s) is Some <==> {
            let start: int = if s.len() > 0 && (s[0] == '+' || s[0] == '-') {
                1
            } else {
                0
            };
            s.len() > start && forall|i: int| start <= i < s.len() ==> '0' <= #[trigger] s[i] <= '9'
        },
{
    let body = unsigned_part(s);
    let start: int = if s.len() > 0 && (s[0] == '+' || s[0] == '-') {
        1
    } else {
        0
    };
    assert(body =~= s.skip(start));
    if integer_value(s) is Some {
        assert forall|i: int| start <= i < s.len() implies '0' <= #[trigger] s[i] <= '9' by {
            assert(is_digit(body[i - start]));
        }
    } else if body.len() > 0 {
        let i = choose|i: int| 0 <= i < body.len() && !is_digit(#[trigger] body[i]);
        assert(!('0' <= s[i + start] <= '9'));
    }
}

/// An integer is read in base ten: a digit alone is its own value, and a further
/// digit counts ten times what stands before it; a minus sign turns the value
/// over and a plus sign leaves it.
pub proof fn law_integers_are_read_in_base_ten(s: Seq<char>, d: int)
    requires
        0 <= d < 10,
    ensures
        integer_value(seq![numerals()[d]]) == Some(d),
        integer_value(seq!['-', numerals()[d]]) == Some(-d),
        integer_value(seq!['+', numerals()[d]]) == Some(d),
        integer_value(s) is Some ==> integer_value(s.push(numerals()[d])) == Some(
            10 * integer_value(s)->0 + if s[0] == '-' {
                -d
            } else {
                d
            },
        ),
{
    lemma_digits(d);
    reveal_with_fuel(digits_value, 3);
    let c = numerals()[d];
    let one = seq![c];
    assert(one.drop_last() =~= Seq::<char>::empty());
    assert(digits_value(one) == d);
    assert(unsigned_part(one) =~= one);
    assert(seq!['-', c].drop_first() =~= one);
    assert(seq!['+', c].drop_first() =~= one);
    if integer_value(s) is Some {
        let body = unsigned_part(s);
        let longer = unsigned_part(s.push(c));
        assert(longer =~= body.push(c));
        assert(longer.drop_last() =~= body);
        assert forall|i: int| 0 <= i < longer.len() implies is_digit(#[trigger] longer[i]) by {
            if i < body.len() {
                assert(is_digit(body[i]));
            }
        }
    }
}

/// A text is blank exactly where each part of it is; an empty text is blank, and
/// a single character where it is white space.
pub proof fn law_blank_texts(s: Seq<char>, t: Seq<char>, c: char)
    ensures
        blank(s + t) <==> blank(s) && blank(t),
        blank(Seq::empty()),
        blank(seq![c]) <==> white_space(c),
        white_space(' ') && white_space('\t') && white_space('\n') && white_space('\r'),
        'a' <= c <= 'z' || 'A' <= c <= 'Z' || '0' <= c <= '9' || c == '_' || c == '-'
            ==> !white_space(c),
{
    if blank(s + t) {
        assert forall|i: int| 0 <= i < s.len() implies white_space(#[trigger] s[i]) by {
            assert(white_space((s + t)[i]));
        }
        assert forall|i: int| 0 <= i < t.len() implies white_space(#[trigger] t[i]) by {
            assert(white_space((s + t)[s.len() + i]));
        }
    }
    if blank(seq![c]) {
        assert(white_space(seq![c][0]));
    }
}

/// Parts are joined one behind the other: one part stands alone, and a further
/// one comes behind the separator.
pub proof fn law_joining(parts: Seq<Seq<char>>, part: Seq<char>, sep: Seq<char>)
    ensures
        joined(Seq::empty(), sep) == Seq::<char>::empty(),
        joined(seq![part], sep) == part,
        parts.len() > 0 ==> joined(parts.push(part), sep) == joined(parts, sep) + sep + part,
{
    assert(parts.push(part).drop_last() =~= parts);
}

/// Every part stands in what they are joined to.
pub proof fn law_joined_parts_are_there(parts: Seq<Seq<char>>, sep: Seq<char>, i: int) -> (at: int)
    requires
        0 <= i < parts.len(),
    ensures
        0 <= at <= at + parts[i].len() <= joined(parts, sep).len(),
        joined(parts, sep).subrange(at, at + parts[i].len()) == parts[i],
    decreases parts.len(),
{
    let all = joined(parts, sep);
    if parts.len() == 1 {
        assert(all.subrange(0, all.len() as int) =~= parts[0]);
        0
    } else if i == parts.len() - 1 {
        let at = all.len() - parts[i].len();
        assert(all.subrange(at, all.len() as int) =~= parts[i]);
        at
    } else {
        let head = parts.drop_last();
        let at = law_joined_parts_are_there(head, sep, i);
        assert(all.subrange(at, at + parts[i].len()) =~= joined(head, sep).subrange(
            at,
            at + parts[i].len(),
        ));
        at
    }
}

/// A padded text is the text and behind it nothing but spaces; it fills its column
/// and is never cut.
pub proof fn law_padding(s: Seq<char>, width: nat)
    ensures
        padded(s, width).len() == if s.len() > width {
            s.len()
        } else {
            width
        },
        padded(s, width).take(s.len() as int) == s,
        forall|i: int| s.len() <= i < padded(s, width).len() ==> #[trigger] padded(s, width)[i] == ' ',
    decreases width - s.len(),
{
    if s.len() < width {
        law_padding(s.push(' '), width);
        let longer = s.push(' ');
        let p = padded(longer, width);
        assert(p.take(longer.len() as int).take(s.len() as int) =~= p.take(s.len() as int));
        assert(longer.take(s.len() as int) =~= s);
        assert(p.take(longer.len() as int)[s.len() as int] == ' ');
    } else {
        assert(s.take(s.len() as int) =~= s);
    }
}

} // verus!
