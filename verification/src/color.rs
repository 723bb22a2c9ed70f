//! The color model: four 8-bit channels with a textual form
//! "R G B A" that parses back to the identical value.

use vstd::arithmetic::div_mod::lemma_div_denominator;
use vstd::arithmetic::div_mod::lemma_fundamental_div_mod;
use vstd::arithmetic::div_mod::lemma_fundamental_div_mod_converse;
use vstd::prelude::*;

verus! {

/// An RGBA color with 8-bit channels.
#[derive(Clone, Copy, Debug, PartialEq, Eq, Structural)]
pub struct Color {
    pub r: u8,
    pub g: u8,
    pub b: u8,
    pub a: u8,
}

/// Why a color string failed to parse.
#[derive(Debug)]
pub enum ColorError {
    /// A field was not a valid decimal 0..=255 integer; carries the
    /// original string and the offending field.
    RgbaParseError(String, String),
    /// The string did not hold exactly four fields; carries the
    /// values that were parsed.
    RgbaLengthError(Vec<u8>),
}

impl Default for Color {
    /// The default color is opaque black.
    fn default() -> (c: Color)
        ensures
            c == (Color { r: 0, g: 0, b: 0, a: 255 }),
    {
        Color { r: 0, g: 0, b: 0, a: 255 }
    }
}

/// The decimal digit character for a value below ten.
pub open spec fn digit_char(d: int) -> char {
    if d == 0 {
        '0'
    } else if d == 1 {
        '1'
    } else if d == 2 {
        '2'
    } else if d == 3 {
        '3'
    } else if d == 4 {
        '4'
    } else if d == 5 {
        '5'
    } else if d == 6 {
        '6'
    } else if d == 7 {
        '7'
    } else if d == 8 {
        '8'
    } else {
        '9'
    }
}

/// The shortest decimal text of an 8-bit value: one to three digits,
/// no leading zeros, no sign.
pub open spec fn spec_u8_text(n: u8) -> Seq<char> {
    if n < 10 {
        seq![digit_char(n as int)]
    } else if n < 100 {
        seq![digit_char(n as int / 10), digit_char(n as int % 10)]
    } else {
        seq![
            digit_char(n as int / 100),
            digit_char((n as int / 10) % 10),
            digit_char(n as int % 10),
        ]
    }
}

/// The canonical text of a color: the four channels in decimal,
/// separated by single spaces, in the order R G B A.
pub open spec fn spec_color_text(c: Color) -> Seq<char> {
    spec_u8_text(c.r) + seq![' '] + spec_u8_text(c.g) + seq![' '] + spec_u8_text(c.b) + seq![' ']
        + spec_u8_text(c.a)
}

fn push_digit(out: &mut String, d: u8)
    requires
        d < 10,
    ensures
        final(out)@ == old(out)@.push(digit_char(d as int)),
{
    proof {
        reveal_strlit("0");
        reveal_strlit("1");
        reveal_strlit("2");
        reveal_strlit("3");
        reveal_strlit("4");
        reveal_strlit("5");
        reveal_strlit("6");
        reveal_strlit("7");
        reveal_strlit("8");
        reveal_strlit("9");
    }
    if d == 0 {
        out.append("0");
    } else if d == 1 {
        out.append("1");
    } else if d == 2 {
        out.append("2");
    } else if d == 3 {
        out.append("3");
    } else if d == 4 {
        out.append("4");
    } else if d == 5 {
        out.append("5");
    } else if d == 6 {
        out.append("6");
    } else if d == 7 {
        out.append("7");
    } else if d == 8 {
        out.append("8");
    } else {
        out.append("9");
    }
    proof {
        assert(final(out)@ =~= old(out)@.push(digit_char(d as int)));
    }
}

fn push_u8_text(out: &mut String, n: u8)
    ensures
        final(out)@ == old(out)@ + spec_u8_text(n),
{
    if n >= 100 {
        push_digit(out, n / 100);
        push_digit(out, (n / 10) % 10);
        push_digit(out, n % 10);
        proof {
            assert(final(out)@ =~= old(out)@ + spec_u8_text(n));
        }
    } else if n >= 10 {
        push_digit(out, n / 10);
        push_digit(out, n % 10);
        proof {
            assert(n as int / 10 < 10);
            assert(final(out)@ =~= old(out)@ + spec_u8_text(n));
        }
    } else {
        push_digit(out, n);
        proof {
            assert(final(out)@ =~= old(out)@ + spec_u8_text(n));
        }
    }
}

/// Whether a character is a decimal digit.
pub open spec fn is_digit_char(c: char) -> bool {
    '0' <= c && c <= '9'
}

/// The value of a decimal digit character.
pub open spec fn digit_val(c: char) -> int {
    c as int - '0' as int
}

/// Whether every character of a text is a decimal digit.
pub open spec fn all_digits(s: Seq<char>) -> bool {
    forall|i: int| 0 <= i < s.len() ==> is_digit_char(s[i])
}

/// The numeric value of a digit string, most significant digit first.
pub open spec fn digits_val(s: Seq<char>) -> int
    decreases s.len(),
{
    if s.len() == 0 {
        0
    } else {
        digits_val(s.drop_last()) * 10 + digit_val(s.last())
    }
}

/// A field with one leading plus sign stripped, as the standard
/// decimal parser accepts one.
pub open spec fn field_body(s: Seq<char>) -> Seq<char> {
    if s.len() > 0 && s[0] == '+' {
        s.drop_first()
    } else {
        s
    }
}

/// What parsing one field as an 8-bit decimal integer yields: the
/// value when the body is one or more digits worth at most 255,
/// nothing otherwise.
pub open spec fn spec_parse_u8(s: Seq<char>) -> Option<u8> {
    let b = field_body(s);
    if b.len() > 0 && all_digits(b) && 0 <= digits_val(b) <= 255 {
        Some(digits_val(b) as u8)
    } else {
        None
    }
}

/// A digit string's value never shrinks as digits are appended, and
/// is never negative.
proof fn lemma_digits_val_extend(s: Seq<char>, k: int)
    requires
        all_digits(s),
        0 <= k <= s.len(),
    ensures
        0 <= digits_val(s.take(k)) <= digits_val(s),
    decreases s.len() - k,
{
    assert(all_digits(s.take(k))) by {
        assert(forall|i: int| 0 <= i < k ==> s.take(k)[i] == s[i]);
    }
    lemma_digits_val_nonneg(s.take(k));
    if k == s.len() {
        assert(s.take(k) =~= s);
    } else {
        lemma_digits_val_extend(s, k + 1);
        assert(s.take(k + 1).drop_last() =~= s.take(k));
        assert(s.take(k + 1).last() == s[k]);
        let v = digits_val(s.take(k));
        let d = digit_val(s[k]);
        assert(digits_val(s.take(k + 1)) == v * 10 + d);
        assert(is_digit_char(s[k]));
        assert(0 <= d <= 9);
        assert(v * 10 >= v) by (nonlinear_arith)
            requires v >= 0;
    }
}

/// A digit string's value is never negative.
proof fn lemma_digits_val_nonneg(s: Seq<char>)
    requires
        all_digits(s),
    ensures
        digits_val(s) >= 0,
    decreases s.len(),
{
    if s.len() > 0 {
        assert(all_digits(s.drop_last())) by {
            assert(forall|i: int|
                0 <= i < s.drop_last().len() ==> s.drop_last()[i] == s[i]);
        }
        lemma_digits_val_nonneg(s.drop_last());
        assert(is_digit_char(s.last()));
        assert(digits_val(s.drop_last()) * 10 >= 0) by (nonlinear_arith)
            requires digits_val(s.drop_last()) >= 0;
    }
}

/// Parse one field as a decimal 8-bit integer: one optional plus
/// sign, then digits, the value at most 255.
pub fn parse_u8_field(f: &str) -> (r: Option<u8>)
    ensures
        r == spec_parse_u8(f@),
{
    let len = f.unicode_len();
    let mut i: usize = 0;
    if len > 0 && f.get_char(0) == '+' {
        i = 1;
    }
    let ghost sign: int = i as int;
    let ghost body = field_body(f@);
    proof {
        assert(body =~= f@.skip(sign));
        assert forall|j: int| 0 <= j < body.len() implies body[j] == f@[j + sign] by {
            assert(body[j] == f@.skip(sign)[j]);
        }
    }
    if i >= len {
        // An empty body: no digits at all.
        assert(body.len() == 0);
        return None;
    }
    let mut val: u32 = 0;
    while i < len
        invariant
            len == f@.len(),
            sign <= i <= len,
            body == field_body(f@),
            body.len() == len - sign,
            forall|j: int| 0 <= j < body.len() ==> body[j] == f@[j + sign],
            all_digits(body.take(i - sign)),
            val == digits_val(body.take(i - sign)),
            val <= 255,
        decreases len - i,
    {
        let c = f.get_char(i);
        let u = c as u32;
        if u < 48 || u > 57 {
            // A non-digit character: the field is invalid.
            proof {
                assert(body[i - sign] == f@[i as int]);
                assert(!is_digit_char(body[i - sign]));
            }
            return None;
        }
        let d = u - 48;
        proof {
            assert(body[i - sign] == f@[i as int]);
            assert(is_digit_char(body[i - sign]));
            assert(body.take(i - sign + 1).drop_last() =~= body.take(i - sign));
            assert(body.take(i - sign + 1).last() == body[i - sign]);
            assert(digit_val(body[i - sign]) == d as int);
        }
        val = val * 10 + d;
        if val > 255 {
            // The value overflows an 8-bit channel; whatever follows,
            // the field cannot name a value at most 255.
            proof {
                if all_digits(body) {
                    lemma_digits_val_extend(body, i - sign + 1);
                }
            }
            return None;
        }
        i = i + 1;
    }
    proof {
        assert(body.take(i - sign) =~= body);
        assert(body.len() > 0);
    }
    Some(val as u8)
}

/// The index of the first space in a text, or -1 if there is none.
pub open spec fn first_space(s: Seq<char>) -> int
    decreases s.len(),
{
    if s.len() == 0 {
        -1
    } else if s[0] == ' ' {
        0
    } else {
        let r = first_space(s.drop_first());
        if r < 0 {
            -1
        } else {
            r + 1
        }
    }
}

/// The fields of a text split on single spaces; an empty text yields
/// one empty field.
pub open spec fn split_fields(s: Seq<char>) -> Seq<Seq<char>>
    decreases s.len(),
{
    let i = first_space(s);
    if 0 <= i < s.len() {
        seq![s.take(i)] + split_fields(s.skip(i + 1))
    } else {
        seq![s]
    }
}

/// The index of the first field that does not parse as an 8-bit
/// value, or -1 if every field parses.
pub open spec fn first_unparsable(fs: Seq<Seq<char>>) -> int
    decreases fs.len(),
{
    if fs.len() == 0 {
        -1
    } else if spec_parse_u8(fs[0]) is None {
        0
    } else {
        let r = first_unparsable(fs.drop_first());
        if r < 0 {
            -1
        } else {
            r + 1
        }
    }
}

proof fn lemma_first_space_at(s: Seq<char>, i: int)
    requires
        0 <= i < s.len(),
        s[i] == ' ',
        forall|j: int| 0 <= j < i ==> s[j] != ' ',
    ensures
        first_space(s) == i,
    decreases i,
{
    if i > 0 {
        assert(s[0] != ' ');
        assert forall|j: int| 0 <= j < i - 1 implies s.drop_first()[j] != ' ' by {
            assert(s.drop_first()[j] == s[j + 1]);
        }
        assert(s.drop_first()[i - 1] == s[i]);
        lemma_first_space_at(s.drop_first(), i - 1);
    }
}

proof fn lemma_first_space_none(s: Seq<char>)
    requires
        forall|j: int| 0 <= j < s.len() ==> s[j] != ' ',
    ensures
        first_space(s) == -1,
    decreases s.len(),
{
    if s.len() > 0 {
        assert forall|j: int| 0 <= j < s.drop_first().len() implies s.drop_first()[j] != ' ' by {
            assert(s.drop_first()[j] == s[j + 1]);
        }
        lemma_first_space_none(s.drop_first());
    }
}

/// Splitting a text whose first space stands at `i` yields the prefix
/// before it and then the fields of what follows it.
proof fn lemma_split_at(s: Seq<char>, i: int)
    requires
        0 <= i < s.len(),
        s[i] == ' ',
        forall|j: int| 0 <= j < i ==> s[j] != ' ',
    ensures
        split_fields(s) == seq![s.take(i)] + split_fields(s.skip(i + 1)),
{
    lemma_first_space_at(s, i);
}

/// Splitting a text without spaces yields that text as the one field.
proof fn lemma_split_whole(s: Seq<char>)
    requires
        forall|j: int| 0 <= j < s.len() ==> s[j] != ' ',
    ensures
        split_fields(s) == seq![s],
{
    lemma_first_space_none(s);
}

/// How the first unparsable field of a concatenation relates to the
/// two parts, when every field of the first part parses.
proof fn lemma_first_unparsable_concat(a: Seq<Seq<char>>, b: Seq<Seq<char>>)
    requires
        first_unparsable(a) == -1,
    ensures
        first_unparsable(a + b) == (if first_unparsable(b) < 0 {
            -1int
        } else {
            a.len() + first_unparsable(b)
        }),
    decreases a.len(),
{
    if a.len() == 0 {
        assert(a + b =~= b);
    } else {
        assert((a + b)[0] == a[0]);
        assert(spec_parse_u8(a[0]) is Some);
        assert((a + b).drop_first() =~= a.drop_first() + b);
        assert(first_unparsable(a.drop_first()) == -1);
        lemma_first_unparsable_concat(a.drop_first(), b);
        assert((a + b).len() > 0);
    }
}

proof fn lemma_digit_char_props(d: int)
    requires
        0 <= d <= 9,
    ensures
        is_digit_char(digit_char(d)),
        digit_val(digit_char(d)) == d,
        digit_char(d) != ' ',
        digit_char(d) != '+',
{
}

/// The canonical text of an 8-bit value holds no space and parses
/// back to the same value.
proof fn lemma_u8_text_parses(n: u8)
    ensures
        spec_u8_text(n).len() >= 1,
        forall|j: int| 0 <= j < spec_u8_text(n).len() ==> spec_u8_text(n)[j] != ' ',
        spec_parse_u8(spec_u8_text(n)) == Some(n),
{
    let t = spec_u8_text(n);
    let m1 = n as int % 10;
    let q1 = n as int / 10;
    lemma_fundamental_div_mod(n as int, 10);
    assert(digits_val(Seq::<char>::empty()) == 0);
    if n < 10 {
        lemma_digit_char_props(n as int);
        assert(t.drop_last() =~= Seq::<char>::empty());
        assert(t.last() == digit_char(n as int));
        assert(digits_val(t) == digit_val(digit_char(n as int)));
        assert(all_digits(t));
        assert(field_body(t) == t);
    } else if n < 100 {
        lemma_digit_char_props(q1);
        lemma_digit_char_props(m1);
        assert(t.drop_last() =~= seq![digit_char(q1)]);
        assert(seq![digit_char(q1)].drop_last() =~= Seq::<char>::empty());
        assert(seq![digit_char(q1)].last() == digit_char(q1));
        assert(digits_val(seq![digit_char(q1)]) == q1);
        assert(digits_val(t) == q1 * 10 + m1);
        assert(q1 * 10 + m1 == n as int);
        assert(all_digits(t));
        assert(field_body(t) == t);
    } else {
        let m2 = q1 % 10;
        let q2 = n as int / 100;
        lemma_fundamental_div_mod(q1, 10);
        lemma_div_denominator(n as int, 10, 10);
        assert(q1 / 10 == q2);
        assert(q1 == 10 * q2 + m2);
        assert(10 * q1 <= n as int);
        assert(q1 <= 25);
        assert(q2 <= 9);
        lemma_digit_char_props(q2);
        lemma_digit_char_props(m2);
        lemma_digit_char_props(m1);
        assert(t.drop_last() =~= seq![digit_char(q2), digit_char(m2)]);
        assert(seq![digit_char(q2), digit_char(m2)].drop_last() =~= seq![digit_char(q2)]);
        assert(seq![digit_char(q2)].drop_last() =~= Seq::<char>::empty());
        assert(seq![digit_char(q2)].last() == digit_char(q2));
        assert(digits_val(seq![digit_char(q2)]) == q2);
        assert(digits_val(seq![digit_char(q2), digit_char(m2)]) == q2 * 10 + m2);
        assert(digits_val(t) == (q2 * 10 + m2) * 10 + m1);
        assert((q2 * 10 + m2) * 10 + m1 == n as int);
        assert(all_digits(t));
        assert(field_body(t) == t);
    }
}

/// Splitting a spaceless prefix, a space, and a remainder yields the
/// prefix and then the fields of the remainder.
proof fn lemma_split_prefix(a: Seq<char>, rest: Seq<char>)
    requires
        forall|j: int| 0 <= j < a.len() ==> a[j] != ' ',
    ensures
        split_fields(a + seq![' '] + rest) == seq![a] + split_fields(rest),
{
    let s = a + seq![' '] + rest;
    assert(s[a.len() as int] == ' ');
    assert forall|j: int| 0 <= j < a.len() implies s[j] != ' ' by {
        assert(s[j] == a[j]);
    }
    lemma_split_at(s, a.len() as int);
    assert(s.take(a.len() as int) =~= a);
    assert(s.skip(a.len() as int + 1) =~= rest);
}

/// The color round trip: the canonical text of any color splits into
/// exactly four fields, each of which parses back to the channel it
/// was formatted from. Together with the contracts of `to_text` and
/// `from_str`, parsing the formatted text of any color returns the
/// identical color.
pub proof fn lemma_color_round_trip(c: Color)
    ensures
        ({
            let fs = split_fields(spec_color_text(c));
            &&& fs.len() == 4
            &&& first_unparsable(fs) == -1
            &&& spec_parse_u8(fs[0]) == Some(c.r)
            &&& spec_parse_u8(fs[1]) == Some(c.g)
            &&& spec_parse_u8(fs[2]) == Some(c.b)
            &&& spec_parse_u8(fs[3]) == Some(c.a)
        }),
{
    let tr = spec_u8_text(c.r);
    let tg = spec_u8_text(c.g);
    let tb = spec_u8_text(c.b);
    let ta = spec_u8_text(c.a);
    lemma_u8_text_parses(c.r);
    lemma_u8_text_parses(c.g);
    lemma_u8_text_parses(c.b);
    lemma_u8_text_parses(c.a);
    let s = spec_color_text(c);
    let rest1 = tg + seq![' '] + (tb + seq![' '] + ta);
    let rest2 = tb + seq![' '] + ta;
    assert(s =~= tr + seq![' '] + rest1);
    assert(rest1 =~= tg + seq![' '] + rest2);
    lemma_split_prefix(tr, rest1);
    lemma_split_prefix(tg, rest2);
    lemma_split_prefix(tb, ta);
    lemma_split_whole(ta);
    let fs = split_fields(s);
    assert(fs == seq![tr] + (seq![tg] + (seq![tb] + seq![ta])));
    assert(fs =~= seq![tr, tg, tb, ta]);
    assert(fs[0] == tr && fs[1] == tg && fs[2] == tb && fs[3] == ta);
    assert(first_unparsable(seq![ta]) == -1) by {
        assert(seq![ta][0] == ta);
        assert(spec_parse_u8(ta) is Some);
        assert(seq![ta].drop_first() =~= Seq::<Seq<char>>::empty());
        assert(first_unparsable(Seq::<Seq<char>>::empty()) == -1);
    }
    assert(first_unparsable(seq![tb, ta]) == -1) by {
        assert(seq![tb, ta][0] == tb);
        assert(spec_parse_u8(tb) is Some);
        assert(seq![tb, ta].drop_first() =~= seq![ta]);
    }
    assert(first_unparsable(seq![tg, tb, ta]) == -1) by {
        assert(seq![tg, tb, ta][0] == tg);
        assert(spec_parse_u8(tg) is Some);
        assert(seq![tg, tb, ta].drop_first() =~= seq![tb, ta]);
    }
    assert(first_unparsable(fs) == -1) by {
        assert(fs[0] == tr);
        assert(spec_parse_u8(tr) is Some);
        assert(fs.drop_first() =~= seq![tg, tb, ta]);
    }
}

/// A field in canonical form: the shortest decimal text of an 8-bit
/// value, with no sign and no leading zero.
pub open spec fn canonical_u8_text(b: Seq<char>) -> bool {
    &&& all_digits(b)
    &&& 1 <= b.len() <= 3
    &&& (b.len() > 1 ==> b[0] != '0')
    &&& digits_val(b) <= 255
}

proof fn lemma_digit_char_inverse(c: char)
    requires
        is_digit_char(c),
    ensures
        digit_char(digit_val(c)) == c,
{
    if c == '0' || c == '1' || c == '2' || c == '3' || c == '4' || c == '5' || c == '6' || c == '7'
        || c == '8' || c == '9' {
    } else {
        assert('0' <= c && c <= '9');
        assert(false) by {
            assert(c as int != '0' as int && c as int != '1' as int && c as int != '2' as int
                && c as int != '3' as int && c as int != '4' as int && c as int != '5' as int
                && c as int != '6' as int && c as int != '7' as int && c as int != '8' as int
                && c as int != '9' as int);
        }
    }
}

/// A canonical field is exactly the canonical text of its value.
proof fn lemma_canonical_text_inverse(b: Seq<char>)
    requires
        canonical_u8_text(b),
    ensures
        spec_u8_text(digits_val(b) as u8) == b,
{
    lemma_digits_val_nonneg(b);
    assert(digits_val(Seq::<char>::empty()) == 0);
    let v = digits_val(b);
    if b.len() == 1 {
        assert(b.drop_last() =~= Seq::<char>::empty());
        assert(b.last() == b[0]);
        assert(v == digit_val(b[0]));
        lemma_digit_char_inverse(b[0]);
        assert(spec_u8_text(v as u8) =~= b);
    } else if b.len() == 2 {
        let d0 = digit_val(b[0]);
        let d1 = digit_val(b[1]);
        assert(b.drop_last() =~= seq![b[0]]);
        assert(seq![b[0]].drop_last() =~= Seq::<char>::empty());
        assert(seq![b[0]].last() == b[0]);
        assert(digits_val(seq![b[0]]) == d0);
        assert(v == d0 * 10 + d1);
        assert(is_digit_char(b[0]) && b[0] != '0');
        assert(d0 >= 1);
        lemma_fundamental_div_mod_converse(v, 10, d0, d1);
        lemma_digit_char_inverse(b[0]);
        lemma_digit_char_inverse(b[1]);
        assert(spec_u8_text(v as u8) =~= b);
    } else {
        let d0 = digit_val(b[0]);
        let d1 = digit_val(b[1]);
        let d2 = digit_val(b[2]);
        assert(b.drop_last() =~= seq![b[0], b[1]]);
        assert(seq![b[0], b[1]].drop_last() =~= seq![b[0]]);
        assert(seq![b[0]].drop_last() =~= Seq::<char>::empty());
        assert(seq![b[0]].last() == b[0]);
        assert(seq![b[0], b[1]].last() == b[1]);
        assert(digits_val(seq![b[0]]) == d0);
        assert(digits_val(seq![b[0], b[1]]) == d0 * 10 + d1);
        assert(v == (d0 * 10 + d1) * 10 + d2);
        assert(is_digit_char(b[0]) && b[0] != '0');
        assert(d0 >= 1);
        lemma_fundamental_div_mod_converse(v, 10, d0 * 10 + d1, d2);
        lemma_fundamental_div_mod_converse(d0 * 10 + d1, 10, d0, d1);
        lemma_div_denominator(v, 10, 10);
        lemma_digit_char_inverse(b[0]);
        lemma_digit_char_inverse(b[1]);
        lemma_digit_char_inverse(b[2]);
        assert(spec_u8_text(v as u8) =~= b);
    }
}

/// The fields of a split, joined back with single spaces.
spec fn join_fields(fs: Seq<Seq<char>>) -> Seq<char>
    decreases fs.len(),
{
    if fs.len() == 0 {
        Seq::empty()
    } else if fs.len() == 1 {
        fs[0]
    } else {
        fs[0] + seq![' '] + join_fields(fs.drop_first())
    }
}

proof fn lemma_first_space_found(s: Seq<char>)
    requires
        first_space(s) >= 0,
    ensures
        first_space(s) < s.len(),
        s[first_space(s)] == ' ',
    decreases s.len(),
{
    if s.len() > 0 && s[0] != ' ' {
        lemma_first_space_found(s.drop_first());
        assert(s.drop_first()[first_space(s.drop_first())] == s[first_space(s)]);
    }
}

/// Joining the fields of any split restores the text.
proof fn lemma_split_fields_join(s: Seq<char>)
    ensures
        join_fields(split_fields(s)) == s,
    decreases s.len(),
{
    let i = first_space(s);
    if 0 <= i < s.len() {
        lemma_first_space_found(s);
        let rest = split_fields(s.skip(i + 1));
        lemma_split_fields_join(s.skip(i + 1));
        let fs = seq![s.take(i)] + rest;
        assert(fs.len() >= 2);
        assert(fs[0] == s.take(i));
        assert(fs.drop_first() =~= rest);
        assert(join_fields(fs) == s.take(i) + seq![' '] + s.skip(i + 1));
        assert(s.take(i) + seq![' '] + s.skip(i + 1) =~= s);
    } else {
        assert(split_fields(s) == seq![s]);
        assert(join_fields(seq![s]) == s);
    }
}

/// The canonical direction of the round trip: when a text is
/// already canonical — four fields, each the shortest decimal form
/// of its value — every field parses, and formatting the parsed
/// color returns the identical text.
pub proof fn lemma_canonical_color_round_trip(s: Seq<char>)
    requires
        ({
            let fs = split_fields(s);
            fs.len() == 4 && (forall|k: int| 0 <= k < 4 ==> canonical_u8_text(#[trigger] fs[k]))
        }),
    ensures
        ({
            let fs = split_fields(s);
            &&& forall|k: int|
                0 <= k < 4 ==> spec_parse_u8(#[trigger] fs[k]) == Some(
                    (digits_val(fs[k]) as u8),
                )
            &&& spec_color_text(
                Color {
                    r: digits_val(fs[0]) as u8,
                    g: digits_val(fs[1]) as u8,
                    b: digits_val(fs[2]) as u8,
                    a: digits_val(fs[3]) as u8,
                },
            ) == s
        }),
{
    let fs = split_fields(s);
    assert forall|k: int| 0 <= k < 4 implies spec_parse_u8(#[trigger] fs[k]) == Some(
        (digits_val(fs[k]) as u8),
    ) by {
        let b = fs[k];
        lemma_digits_val_nonneg(b);
        assert(is_digit_char(b[0]));
        assert(b[0] != '+');
        assert(field_body(b) == b);
    }
    lemma_canonical_text_inverse(fs[0]);
    lemma_canonical_text_inverse(fs[1]);
    lemma_canonical_text_inverse(fs[2]);
    lemma_canonical_text_inverse(fs[3]);
    lemma_split_fields_join(s);
    assert(fs.drop_first() =~= seq![fs[1], fs[2], fs[3]]);
    assert(seq![fs[1], fs[2], fs[3]].drop_first() =~= seq![fs[2], fs[3]]);
    assert(seq![fs[2], fs[3]].drop_first() =~= seq![fs[3]]);
    assert(seq![fs[1], fs[2], fs[3]][0] == fs[1]);
    assert(seq![fs[2], fs[3]][0] == fs[2]);
    assert(seq![fs[3]][0] == fs[3]);
    assert(join_fields(seq![fs[3]]) == fs[3]);
    assert(join_fields(seq![fs[2], fs[3]]) == fs[2] + seq![' '] + join_fields(seq![fs[3]]));
    assert(join_fields(seq![fs[1], fs[2], fs[3]]) == fs[1] + seq![' '] + join_fields(seq![
        fs[2],
        fs[3],
    ]));
    assert(join_fields(fs) == fs[0] + seq![' '] + join_fields(seq![fs[1], fs[2], fs[3]]));
    let c = Color {
        r: digits_val(fs[0]) as u8,
        g: digits_val(fs[1]) as u8,
        b: digits_val(fs[2]) as u8,
        a: digits_val(fs[3]) as u8,
    };
    assert(spec_color_text(c) =~= join_fields(fs));
}

impl Color {
    /// Parse a color from its textual form: four decimal 8-bit
    /// values separated by single spaces, in the order R G B A.
    ///
    /// Fails with `RgbaParseError` when a field is not a valid
    /// 0..=255 integer, and with `RgbaLengthError` when the split
    /// yields other than exactly four fields.
    pub fn from_str(s: &str) -> (r: Result<Color, ColorError>)
        ensures
            ({
                let fs = split_fields(s@);
                &&& (r is Ok <==> first_unparsable(fs) == -1 && fs.len() == 4)
                &&& (r matches Ok(c) ==> spec_parse_u8(fs[0]) == Some(c.r)
                    && spec_parse_u8(fs[1]) == Some(c.g)
                    && spec_parse_u8(fs[2]) == Some(c.b)
                    && spec_parse_u8(fs[3]) == Some(c.a))
                &&& (first_unparsable(fs) >= 0 ==> (r matches Err(ColorError::RgbaParseError(orig, fld))
                    && orig@ == s@ && fld@ == fs[first_unparsable(fs)]))
                &&& (first_unparsable(fs) == -1 && fs.len() != 4 ==> (r matches Err(
                    ColorError::RgbaLengthError(vals),
                ) && vals@.len() == fs.len() && (forall|k: int|
                    0 <= k < fs.len() ==> spec_parse_u8(fs[k]) == Some(vals@[k]))))
            }),
    {
        let len = s.unicode_len();
        let mut vals: Vec<u8> = Vec::new();
        let mut start: usize = 0;
        let mut more = true;
        let ghost mut done: Seq<Seq<char>> = Seq::empty();
        proof {
            assert(s@.skip(0) =~= s@);
            assert(done + split_fields(s@) =~= split_fields(s@));
        }
        while more
            invariant
                len == s@.len(),
                start <= len,
                vals@.len() == done.len(),
                forall|k: int| 0 <= k < done.len() ==> spec_parse_u8(done[k]) == Some(vals@[k]),
                first_unparsable(done) == -1,
                more ==> split_fields(s@) == done + split_fields(s@.skip(start as int)),
                !more ==> split_fields(s@) == done,
            decreases (if more { 1int } else { 0int }), len - start,
        {
            // Scan to the end of the current field.
            let mut end = start;
            loop
                invariant_except_break
                    start <= end <= len,
                    len == s@.len(),
                    forall|j: int| start <= j < end ==> s@[j] != ' ',
                ensures
                    start <= end <= len,
                    forall|j: int| start <= j < end ==> s@[j] != ' ',
                    end == len || s@[end as int] == ' ',
                decreases len - end,
            {
                if end >= len {
                    break ;
                }
                if s.get_char(end) == ' ' {
                    break ;
                }
                end = end + 1;
            }
            let field = s.substring_char(start, end);
            let ghost rem = s@.skip(start as int);
            proof {
                assert forall|j: int| 0 <= j < rem.len() implies rem[j] == s@[j + start] by {
                    assert(rem[j] == s@.skip(start as int)[j]);
                }
                assert(field@ =~= rem.take(end - start));
                if end < len {
                    assert(rem[end - start] == ' ');
                    assert forall|j: int| 0 <= j < end - start implies rem[j] != ' ' by {
                        assert(rem[j] == s@[j + start]);
                    }
                    lemma_split_at(rem, end - start);
                    assert(rem.skip(end - start + 1) =~= s@.skip(end + 1));
                    assert(split_fields(rem) == seq![field@] + split_fields(s@.skip(end + 1)));
                } else {
                    assert forall|j: int| 0 <= j < rem.len() implies rem[j] != ' ' by {
                        assert(rem[j] == s@[j + start]);
                    }
                    lemma_split_whole(rem);
                    assert(field@ =~= rem);
                    assert(split_fields(rem) =~= seq![field@] + Seq::<Seq<char>>::empty());
                }
            }
            match parse_u8_field(field) {
                None => {
                    proof {
                        let tail: Seq<Seq<char>> = if end < len {
                            split_fields(s@.skip(end + 1))
                        } else {
                            Seq::empty()
                        };
                        assert(split_fields(s@) == done + (seq![field@] + tail));
                        assert((seq![field@] + tail)[0] == field@);
                        assert(first_unparsable(seq![field@] + tail) == 0);
                        lemma_first_unparsable_concat(done, seq![field@] + tail);
                        assert(first_unparsable(split_fields(s@)) == done.len());
                        assert(split_fields(s@)[done.len() as int] == field@);
                    }
                    return Err(ColorError::RgbaParseError(s.to_owned(), field.to_owned()));
                },
                Some(v) => {
                    vals.push(v);
                    proof {
                        let prev = done;
                        assert(first_unparsable(seq![field@]) == -1) by {
                            assert(seq![field@][0] == field@);
                            assert(spec_parse_u8(field@) is Some);
                            assert(first_unparsable(Seq::<Seq<char>>::empty()) == -1);
                            assert(seq![field@].drop_first() =~= Seq::<Seq<char>>::empty());
                        }
                        lemma_first_unparsable_concat(prev, seq![field@]);
                        done = prev.push(field@);
                        assert(done =~= prev + seq![field@]);
                        assert(first_unparsable(done) == -1);
                        let tail: Seq<Seq<char>> = if end < len {
                            split_fields(s@.skip(end + 1))
                        } else {
                            Seq::empty()
                        };
                        assert(split_fields(s@) == prev + (seq![field@] + tail));
                        assert(prev + (seq![field@] + tail) =~= done + tail);
                        assert(split_fields(s@) == done + tail);
                    }
                },
            }
            if end < len {
                start = end + 1;
            } else {
                more = false;
                proof {
                    assert(split_fields(s@) =~= done);
                }
            }
        }
        if vals.len() == 4 {
            Ok(Color { r: vals[0], g: vals[1], b: vals[2], a: vals[3] })
        } else {
            Err(ColorError::RgbaLengthError(vals))
        }
    }

    /// The textual form of the color, "R G B A" in decimal.
    pub fn to_text(&self) -> (r: String)
        ensures
            r@ == spec_color_text(*self),
    {
        proof {
            reveal_strlit(" ");
        }
        let mut out = String::new();
        push_u8_text(&mut out, self.r);
        out.append(" ");
        push_u8_text(&mut out, self.g);
        out.append(" ");
        push_u8_text(&mut out, self.b);
        out.append(" ");
        push_u8_text(&mut out, self.a);
        proof {
            assert(out@ =~= spec_color_text(*self));
        }
        out
    }
}

} // verus!
