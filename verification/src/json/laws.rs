//! What the reader promises of every text and every value: what each byte means, which
//! number a literal is, where a fault stands, and what is found under a key.
use crate::json::grammar::{Fault, Json};
use crate::json::literal::Decimal;
use crate::json::number::Number;
use crate::json::Value;
use vstd::prelude::*;
use vstd::utf8::*;

verus! {

/// White space between the parts of a text is a space, a tab, a line feed or a carriage
/// return, and nothing else.
pub proof fn white_space_is_four_characters(b: u8)
    ensures
        crate::json::grammar::is_space(b) <==> (b as char == ' ' || b as char == '\t' || b as char
            == '\n' || b as char == '\r'),
{
}

/// The three words are spelt in lower case letters.
pub proof fn words_are_spelt_out()
    ensures
        crate::json::grammar::latin(crate::json::grammar::word_true()) == "true"@,
        crate::json::grammar::latin(crate::json::grammar::word_false()) == "false"@,
        crate::json::grammar::latin(crate::json::grammar::word_null()) == "null"@,
{
    reveal_strlit("true");
    reveal_strlit("false");
    reveal_strlit("null");
    assert(crate::json::grammar::latin(crate::json::grammar::word_true()) =~= "true"@);
    assert(crate::json::grammar::latin(crate::json::grammar::word_false()) =~= "false"@);
    assert(crate::json::grammar::latin(crate::json::grammar::word_null()) =~= "null"@);
}

/// Bytes are taken as the characters of their codes, one for one.
pub proof fn bytes_are_taken_one_by_one(bytes: Seq<u8>, i: int)
    requires
        0 <= i < bytes.len(),
    ensures
        crate::json::grammar::latin(bytes).len() == bytes.len(),
        crate::json::grammar::latin(bytes)[i] as int == bytes[i],
{
}

/// A word stands for its value unless a letter, a digit or an underscore follows it; any
/// other beginning of a word is refused.
pub proof fn words_stand_for_their_values(s: Seq<u8>, i: int)
    requires
        0 <= i < s.len(),
    ensures
        ({
            let r = crate::json::grammar::literal_at(s, i);
            let stands = |word: Seq<char>|
                i + word.len() <= s.len() && crate::json::grammar::latin(
                    s.subrange(i, i + word.len()),
                ) == word;
            &&& r matches Ok((v, end)) ==> (end == s.len() || !crate::json::grammar::is_word(
                s[end],
            )) && ((v == Json::Bool(true) && end == i + 4 && stands("true"@)) || (v == Json::Bool(
                false,
            ) && end == i + 5 && stands("false"@)) || (v == Json::Null && end == i + 4 && stands(
                "null"@,
            )))
            &&& r is Err && (stands("true"@) || stands("null"@)) ==> i + 4 < s.len()
                && crate::json::grammar::is_word(s[i + 4])
            &&& r is Err && stands("false"@) ==> i + 5 < s.len() && crate::json::grammar::is_word(
                s[i + 5],
            )
        }),
{
    words_are_spelt_out();
    reveal_strlit("true");
    reveal_strlit("false");
    reveal_strlit("null");
    let (t, f, n) = (
        crate::json::grammar::word_true(),
        crate::json::grammar::word_false(),
        crate::json::grammar::word_null(),
    );
    if i + 4 <= s.len() {
        let part = s.subrange(i, i + 4);
        lemma_latin(part, t);
        lemma_latin(part, n);
        assert(part[0] == s[i]);
        assert("true"@[0] != "null"@[0]);
        assert(t[0] != n[0]);
    }
    if i + 5 <= s.len() {
        let part = s.subrange(i, i + 5);
        lemma_latin(part, f);
        assert(part[0] == s[i]);
        assert(t[0] != f[0] && n[0] != f[0]);
    }
}

/// Bytes with the same characters are the same.
proof fn lemma_latin(a: Seq<u8>, b: Seq<u8>)
    ensures
        crate::json::grammar::latin(a) == crate::json::grammar::latin(b) <==> a == b,
{
    let (p, q) = (crate::json::grammar::latin(a), crate::json::grammar::latin(b));
    if p == q {
        assert(p.len() == a.len() && q.len() == b.len());
        assert forall|i: int| 0 <= i < a.len() implies a[i] == b[i] by {
            assert(p[i] as int == a[i]);
            assert(q[i] as int == b[i]);
        }
        assert(a =~= b);
    }
}

/// A letter, a digit or an underscore makes a word longer, and nothing else.
pub proof fn words_run_on_in_letters_digits_and_underscores(b: u8)
    ensures
        crate::json::grammar::is_word(b) <==> ('a' <= b as char <= 'z' || 'A' <= b as char <= 'Z'
            || '0' <= b as char <= '9' || b as char == '_'),
{
}

/// A number is made of digits, signs, points and the two letters of an exponent.
pub proof fn numbers_are_made_of_digits_signs_points_and_exponents(b: u8)
    ensures
        crate::json::grammar::is_number_byte(b) <==> ('0' <= b as char <= '9' || b as char == '+'
            || b as char == '-' || b as char == '.' || b as char == 'e' || b as char == 'E'),
        crate::json::literal::is_digit(b) <==> '0' <= b as char <= '9',
{
}

/// Hexadecimal digits are the decimal ones and the letters from `a` to `f`, large or
/// small.
pub proof fn hexadecimal_digits_have_their_values(b: u8)
    ensures
        '0' <= b as char <= '9' ==> crate::json::grammar::hex_digit(b) == Some(
            (b as int - '0' as int) as nat,
        ),
        'a' <= b as char <= 'f' ==> crate::json::grammar::hex_digit(b) == Some(
            (b as int - 'a' as int + 10) as nat,
        ),
        'A' <= b as char <= 'F' ==> crate::json::grammar::hex_digit(b) == Some(
            (b as int - 'A' as int + 10) as nat,
        ),
        !('0' <= b as char <= '9' || 'a' <= b as char <= 'f' || 'A' <= b as char <= 'F')
            ==> crate::json::grammar::hex_digit(b) is None,
{
}

/// A backslash and one of eight characters name a character, and no other byte behind a
/// backslash does but `u`.
pub proof fn escapes_name_their_characters(s: Seq<u8>, i: int)
    requires
        0 <= i < s.len(),
    ensures
        ({
            let r = crate::json::grammar::escape_at(s, i);
            let c = s[i] as char;
            &&& c == '"' || c == '\\' || c == '/' ==> r == Ok::<(char, int), Fault>((c, i + 1))
            &&& c == 'b' ==> r == Ok::<(char, int), Fault>(('\u{8}', i + 1))
            &&& c == 'f' ==> r == Ok::<(char, int), Fault>(('\u{c}', i + 1))
            &&& c == 'n' ==> r == Ok::<(char, int), Fault>(('\n', i + 1))
            &&& c == 'r' ==> r == Ok::<(char, int), Fault>(('\r', i + 1))
            &&& c == 't' ==> r == Ok::<(char, int), Fault>(('\t', i + 1))
            &&& c != '"' && c != '\\' && c != '/' && c != 'b' && c != 'f' && c != 'n' && c != 'r'
                && c != 't' && c != 'u' ==> r == Err::<(char, int), Fault>(Fault::Escape(s[i]))
        }),
{
}

/// A backslash, `u` and four hexadecimal digits name the character of the number that the
/// digits are, the first of them highest; there is no character for a surrogate.
pub proof fn codes_name_their_characters(
    s: Seq<u8>,
    i: int,
    a: nat,
    b: nat,
    c: nat,
    d: nat,
)
    requires
        0 <= i,
        i + 5 <= s.len(),
        s[i] as char == 'u',
        crate::json::grammar::hex_digit(s[i + 1]) == Some(a),
        crate::json::grammar::hex_digit(s[i + 2]) == Some(b),
        crate::json::grammar::hex_digit(s[i + 3]) == Some(c),
        crate::json::grammar::hex_digit(s[i + 4]) == Some(d),
    ensures
        ({
            let code = ((a * 16 + b) * 16 + c) * 16 + d;
            let r = crate::json::grammar::escape_at(s, i);
            &&& 0xd800 <= code <= 0xdfff ==> r == Err::<(char, int), Fault>(Fault::CodePoint)
            &&& !(0xd800 <= code <= 0xdfff) ==> (r matches Ok((found, end)) && found as int == code
                && end == i + 5)
        }),
{
    let part = s.subrange(i + 1, i + 5);
    assert forall|k: int| 0 <= k < 4 implies #[trigger] part[k] <= 0x7f by {
        assert(part[k] == s[i + 1 + k]);
    }
    crate::json::written::lemma_ascii(part);
}

/// Behind `u`, fewer than four bytes are too few, and four that are not all hexadecimal
/// digits name nothing.
pub proof fn other_codes_are_refused(s: Seq<u8>, i: int)
    requires
        0 <= i < s.len(),
        s[i] as char == 'u',
    ensures
        i + 5 > s.len() ==> crate::json::grammar::escape_at(s, i) == Err::<(char, int), Fault>(
            Fault::ShortCode,
        ),
        i + 5 <= s.len() && valid_utf8(s.subrange(i + 1, i + 5)) && (crate::json::grammar::hex_digit(
            s[i + 1],
        ) is None || crate::json::grammar::hex_digit(s[i + 2]) is None
            || crate::json::grammar::hex_digit(s[i + 3]) is None
            || crate::json::grammar::hex_digit(s[i + 4]) is None)
            ==> crate::json::grammar::escape_at(s, i) == Err::<(char, int), Fault>(
            Fault::CodeDigits,
        ),
{
}

/// Digits, and only digits.
pub open spec fn are_digits(t: Seq<u8>) -> bool {
    forall|i: int| 0 <= i < t.len() ==> '0' <= #[trigger] t[i] as char <= '9'
}

/// No sign, a plus or a minus.
pub open spec fn is_sign_text(t: Seq<u8>) -> bool {
    t.len() == 0 || (t.len() == 1 && (t[0] as char == '+' || t[0] as char == '-'))
}

/// A literal as it is written: a sign, digits, a point and more digits where there is a
/// point, and an exponent with a sign of its own where there is one.
#[verifier::opaque]
pub open spec fn literal_text(
    sign: Seq<u8>,
    ints: Seq<u8>,
    point: bool,
    fraction: Seq<u8>,
    exponent: Option<(u8, Seq<u8>, Seq<u8>)>,
) -> Seq<u8> {
    sign + ints + (if point {
        seq!['.' as u8] + fraction
    } else {
        Seq::empty()
    }) + (match exponent {
        Some((mark, esign, digits)) => seq![mark] + esign + digits,
        None => Seq::empty(),
    })
}

/// The parts are those of a literal.
pub open spec fn are_literal_parts(
    sign: Seq<u8>,
    ints: Seq<u8>,
    point: bool,
    fraction: Seq<u8>,
    exponent: Option<(u8, Seq<u8>, Seq<u8>)>,
) -> bool {
    &&& is_sign_text(sign)
    &&& are_digits(ints)
    &&& are_digits(fraction)
    &&& !point ==> fraction.len() == 0
    &&& ints.len() + fraction.len() > 0
    &&& exponent matches Some((mark, esign, digits)) ==> (mark as char == 'e' || mark as char
        == 'E') && is_sign_text(esign) && are_digits(digits) && digits.len() > 0
}

/// The number that digits are: one more digit behind them multiplies by ten.
pub open spec fn digits_number(t: Seq<u8>) -> nat
    decreases t.len(),
{
    if t.len() == 0 {
        0
    } else {
        (10 * digits_number(t.drop_last()) + (t.last() as int - '0' as int)) as nat
    }
}

proof fn lemma_digits_number(t: Seq<u8>, from: int, to: int)
    requires
        0 <= from <= to <= t.len(),
        are_digits(t.subrange(from, to)),
    ensures
        crate::json::literal::digits_value(t, from, to) == digits_number(t.subrange(from, to)),
    decreases to - from,
{
    let part = t.subrange(from, to);
    if from < to {
        let front = t.subrange(from, to - 1);
        assert(part.drop_last() =~= front);
        assert forall|i: int| 0 <= i < front.len() implies '0' <= #[trigger] front[i] as char
            <= '9' by {
            assert(front[i] == part[i]);
        }
        lemma_digits_number(t, from, to - 1);
        assert forall|j: int| from <= j <= to - 1 implies crate::json::literal::is_digit(
            #[trigger] t[j],
        ) by {
            assert(part[j - from] == t[j]);
        }
        crate::json::literal::lemma_digits_behind(t, from, to - 1);
        assert(part.last() == t[to - 1]);
    }
}

proof fn lemma_digits_joined(a: Seq<u8>, b: Seq<u8>)
    requires
        are_digits(a),
        are_digits(b),
    ensures
        are_digits(a + b),
        digits_number(a + b) == digits_number(a) * crate::math::pow(10, b.len()) + digits_number(b),
    decreases b.len(),
{
    let t = a + b;
    assert forall|i: int| 0 <= i < t.len() implies '0' <= #[trigger] t[i] as char <= '9' by {
        if i < a.len() {
            assert(t[i] == a[i]);
        } else {
            assert(t[i] == b[i - a.len()]);
        }
    }
    let n = digits_number(a);
    if b.len() == 0 {
        assert(t =~= a);
        assert(crate::math::pow(10, 0) == 1);
        assert(n * 1 == n);
    } else {
        let front = b.drop_last();
        assert forall|i: int| 0 <= i < front.len() implies '0' <= #[trigger] front[i] as char
            <= '9' by {
            assert(front[i] == b[i]);
        }
        lemma_digits_joined(a, front);
        assert(t.drop_last() =~= a + front);
        assert(t.last() == b.last());
        let p = crate::math::pow(10, front.len());
        assert(crate::math::pow(10, b.len()) == 10 * p);
        assert(n * (10 * p) == 10 * (n * p)) by (nonlinear_arith);
        assert('0' <= b[b.len() - 1] as char <= '9');
    }
}

/// A literal is its digits, those before the point and those behind it, times a power of
/// ten: that of the exponent, less one for each digit behind the point. A minus in front
/// makes it negative, a plus changes nothing.
pub proof fn literals_are_read_as_they_are_written(
    sign: Seq<u8>,
    ints: Seq<u8>,
    point: bool,
    fraction: Seq<u8>,
    exponent: Option<(u8, Seq<u8>, Seq<u8>)>,
)
    requires
        are_literal_parts(sign, ints, point, fraction, exponent),
    ensures
        ({
            let scale = match exponent {
                Some((_, esign, digits)) => if esign.len() == 1 && esign[0] as char == '-' {
                    -digits_number(digits)
                } else {
                    digits_number(digits) as int
                },
                None => 0,
            };
            crate::json::literal::literal(literal_text(sign, ints, point, fraction, exponent))
                == Some(
                Decimal {
                    negative: sign.len() == 1 && sign[0] as char == '-',
                    digits: digits_number(ints + fraction),
                    exponent: scale - fraction.len(),
                },
            )
        }),
{
    let t = literal_text(sign, ints, point, fraction, exponent);
    let from = sign.len() as int;
    let int_end = from + ints.len();
    let frac: int = if point {
        int_end + 1
    } else {
        int_end
    };
    let frac_end = frac + fraction.len();
    lemma_literal_places(sign, ints, point, fraction, exponent);
    lemma_digits_joined(ints, fraction);
    if sign.len() == 1 {
        assert(t.subrange(0, from)[0] == t[0]);
    }
    match exponent {
        Some((mark, esign, digits)) => {
            let e = frac_end + 1 + esign.len();
            if esign.len() == 1 {
                assert(t.subrange(frac_end + 1, e)[0] == t[frac_end + 1]);
            }
            lemma_literal_with_exponent(t, from, int_end, point, frac, frac_end, e);
        },
        None => {
            lemma_literal_without_exponent(t, from, int_end, point, frac, frac_end);
        },
    }
}

/// Where the parts of a literal stand.
proof fn lemma_literal_places(
    sign: Seq<u8>,
    ints: Seq<u8>,
    point: bool,
    fraction: Seq<u8>,
    exponent: Option<(u8, Seq<u8>, Seq<u8>)>,
)
    requires
        !point ==> fraction.len() == 0,
    ensures
        ({
            let t = literal_text(sign, ints, point, fraction, exponent);
            let from = sign.len() as int;
            let int_end = from + ints.len();
            let frac: int = if point {
                int_end + 1
            } else {
                int_end
            };
            let frac_end = frac + fraction.len();
            &&& frac_end <= t.len()
            &&& t.subrange(0, from) == sign
            &&& t.subrange(from, int_end) == ints
            &&& point ==> t[int_end] == 46
            &&& t.subrange(frac, frac_end) == fraction
            &&& match exponent {
                Some((mark, esign, digits)) => {
                    let e = frac_end + 1 + esign.len();
                    &&& t.len() == e + digits.len()
                    &&& t[frac_end] == mark
                    &&& t.subrange(frac_end + 1, e) == esign
                    &&& t.subrange(e, t.len() as int) == digits
                },
                None => t.len() == frac_end,
            }
        }),
{
    reveal(literal_text);
    let head = sign + ints;
    let middle = if point {
        seq!['.' as u8] + fraction
    } else {
        Seq::empty()
    };
    let tail = match exponent {
        Some((mark, esign, digits)) => seq![mark] + esign + digits,
        None => Seq::empty(),
    };
    let front = head + middle;
    let t = front + tail;
    let from = sign.len() as int;
    let int_end = from + ints.len();
    let frac: int = if point {
        int_end + 1
    } else {
        int_end
    };
    let frac_end = frac + fraction.len();
    assert(t == literal_text(sign, ints, point, fraction, exponent));
    assert(t.take(frac_end) =~= front);
    assert(t.take(int_end) =~= head);
    assert(t.subrange(0, from) =~= sign);
    assert(t.subrange(from, int_end) =~= ints);
    if point {
        assert(middle[0] == 46);
        assert(t[int_end] == middle[0]);
    }
    assert(t.subrange(frac, frac_end) =~= fraction);
    if let Some((mark, esign, digits)) = exponent {
        let e = frac_end + 1 + esign.len();
        assert(tail[0] == mark);
        assert(t[frac_end] == tail[0]);
        assert(t.subrange(frac_end + 1, e) =~= esign);
        assert(t.subrange(e, t.len() as int) =~= digits);
    }
}

/// What stands before the exponent.
spec fn stands_before_the_exponent(
    t: Seq<u8>,
    from: int,
    int_end: int,
    point: bool,
    frac: int,
    frac_end: int,
) -> bool {
    &&& 0 <= from <= int_end <= frac <= frac_end <= t.len()
    &&& frac == (if point {
        int_end + 1
    } else {
        int_end
    })
    &&& point ==> t[int_end] == 46
    &&& !point ==> frac_end == int_end
    &&& from <= 1
    &&& from == 1 ==> t[0] == 43 || t[0] == 45
    &&& are_digits(t.subrange(from, int_end))
    &&& are_digits(t.subrange(frac, frac_end))
    &&& int_end - from + frac_end - frac > 0
}

proof fn lemma_before_the_exponent(
    t: Seq<u8>,
    from: int,
    int_end: int,
    point: bool,
    frac: int,
    frac_end: int,
)
    requires
        stands_before_the_exponent(t, from, int_end, point, frac, frac_end),
        frac_end < t.len() ==> t[frac_end] == 101 || t[frac_end] == 69,
    ensures
        crate::json::literal::after_sign(t, 0) == from,
        crate::json::literal::digits_end(t, from) == int_end,
        crate::json::literal::digits_value(t, from, int_end) == digits_number(
            t.subrange(from, int_end),
        ),
        crate::json::literal::digits_value(t, frac, frac_end) == digits_number(
            t.subrange(frac, frac_end),
        ),
        point ==> crate::json::literal::digits_end(t, frac) == frac_end,
        point <==> int_end < t.len() && t[int_end] == 46,
{
    lemma_run(t, from, int_end);
    lemma_run(t, frac, frac_end);
    if from == 0 {
        if int_end > 0 {
            assert(t.subrange(from, int_end)[0] == t[0]);
            assert(crate::json::literal::is_digit(t[0]));
        } else {
            assert(point);
        }
    }
}

proof fn lemma_literal_without_exponent(
    t: Seq<u8>,
    from: int,
    int_end: int,
    point: bool,
    frac: int,
    frac_end: int,
)
    requires
        stands_before_the_exponent(t, from, int_end, point, frac, frac_end),
        frac_end == t.len(),
    ensures
        crate::json::literal::literal(t) == Some(
            Decimal {
                negative: from == 1 && t[0] == 45,
                digits: digits_number(t.subrange(from, int_end)) * crate::math::pow(
                    10,
                    (frac_end - frac) as nat,
                ) + digits_number(t.subrange(frac, frac_end)),
                exponent: frac - frac_end,
            },
        ),
{
    lemma_before_the_exponent(t, from, int_end, point, frac, frac_end);
    lemma_a_digit_is_no_minus(t, from, int_end, point);
}

proof fn lemma_a_digit_is_no_minus(t: Seq<u8>, from: int, int_end: int, point: bool)
    requires
        0 <= from <= int_end <= t.len(),
        from <= 1,
        are_digits(t.subrange(from, int_end)),
        from == int_end ==> point,
        point ==> int_end < t.len() && t[int_end] == 46,
        from == 1 ==> t.len() > 0,
    ensures
        (t.len() > 0 && t[0] == 45) ==> from == 1,
{
    if from == 0 && int_end > 0 {
        assert(t.subrange(from, int_end)[0] == t[0]);
    }
}

proof fn lemma_literal_with_exponent(
    t: Seq<u8>,
    from: int,
    int_end: int,
    point: bool,
    frac: int,
    frac_end: int,
    e: int,
)
    requires
        stands_before_the_exponent(t, from, int_end, point, frac, frac_end),
        frac_end < e < t.len(),
        t[frac_end] == 101 || t[frac_end] == 69,
        e <= frac_end + 2,
        e == frac_end + 2 ==> t[frac_end + 1] == 43 || t[frac_end + 1] == 45,
        are_digits(t.subrange(e, t.len() as int)),
    ensures
        crate::json::literal::literal(t) == Some(
            Decimal {
                negative: from == 1 && t[0] == 45,
                digits: digits_number(t.subrange(from, int_end)) * crate::math::pow(
                    10,
                    (frac_end - frac) as nat,
                ) + digits_number(t.subrange(frac, frac_end)),
                exponent: (if e == frac_end + 2 && t[frac_end + 1] == 45 {
                    -digits_number(t.subrange(e, t.len() as int))
                } else {
                    digits_number(t.subrange(e, t.len() as int)) as int
                }) + frac - frac_end,
            },
        ),
{
    lemma_before_the_exponent(t, from, int_end, point, frac, frac_end);
    lemma_a_digit_is_no_minus(t, from, int_end, point);
    lemma_run(t, e, t.len() as int);
    assert(t.subrange(e, t.len() as int)[0] == t[e]);
    assert(crate::json::literal::is_digit(t[e]));
    assert(crate::json::literal::after_sign(t, frac_end + 1) == e);
}

proof fn lemma_run(t: Seq<u8>, from: int, to: int)
    requires
        0 <= from <= to <= t.len(),
        are_digits(t.subrange(from, to)),
        to < t.len() ==> !crate::json::literal::is_digit(t[to]),
    ensures
        crate::json::literal::digits_end(t, from) == to,
        crate::json::literal::digits_value(t, from, to) == digits_number(t.subrange(from, to)),
{
    let part = t.subrange(from, to);
    assert forall|k: int| from <= k < to implies crate::json::literal::is_digit(#[trigger] t[k]) by {
        assert(part[k - from] == t[k]);
    }
    crate::json::written::lemma_digits_run(t, from, to);
    lemma_digits_number(t, from, to);
}

/// What is taken as a literal is written as one.
pub proof fn only_literals_are_taken(t: Seq<u8>) -> (parts: (
    Seq<u8>,
    Seq<u8>,
    bool,
    Seq<u8>,
    Option<(u8, Seq<u8>, Seq<u8>)>,
))
    requires
        crate::json::literal::literal(t) is Some,
    ensures
        are_literal_parts(parts.0, parts.1, parts.2, parts.3, parts.4),
        t == literal_text(parts.0, parts.1, parts.2, parts.3, parts.4),
{
    let from = crate::json::literal::after_sign(t, 0);
    let int_end = crate::json::literal::digits_end(t, from);
    crate::json::literal::lemma_digits_end(t, from);
    let point = int_end < t.len() && t[int_end] == 46;
    let frac = if point { int_end + 1 } else { int_end };
    let frac_end = if point { crate::json::literal::digits_end(t, frac) } else { int_end };
    if point {
        crate::json::literal::lemma_digits_end(t, frac);
    }
    let sign = t.subrange(0, from);
    let ints = t.subrange(from, int_end);
    let fraction = t.subrange(frac, frac_end);
    assert forall|i: int| 0 <= i < ints.len() implies '0' <= #[trigger] ints[i] as char <= '9' by {
        assert(crate::json::literal::is_digit(t[from + i]));
    }
    assert forall|i: int| 0 <= i < fraction.len() implies '0' <= #[trigger] fraction[i] as char
        <= '9' by {
        assert(crate::json::literal::is_digit(t[frac + i]));
    }
    let exponent: Option<(u8, Seq<u8>, Seq<u8>)> = if frac_end < t.len() {
        let e = crate::json::literal::after_sign(t, frac_end + 1);
        crate::json::literal::lemma_digits_end(t, e);
        let digits = t.subrange(e, t.len() as int);
        assert forall|i: int| 0 <= i < digits.len() implies '0' <= #[trigger] digits[i] as char
            <= '9' by {
            assert(crate::json::literal::is_digit(t[e + i]));
        }
        Some((t[frac_end], t.subrange(frac_end + 1, e), digits))
    } else {
        None
    };
    lemma_parts_of_a_literal(t, from, int_end, point, frac, frac_end, exponent);
    (sign, ints, point, fraction, exponent)
}

proof fn lemma_parts_of_a_literal(
    t: Seq<u8>,
    from: int,
    int_end: int,
    point: bool,
    frac: int,
    frac_end: int,
    exponent: Option<(u8, Seq<u8>, Seq<u8>)>,
)
    requires
        0 <= from <= int_end <= frac <= frac_end <= t.len(),
        point ==> int_end < t.len() && t[int_end] == '.' as u8 && frac == int_end + 1,
        !point ==> frac == int_end && frac_end == frac,
        match exponent {
            Some((mark, esign, digits)) => {
                &&& frac_end < t.len()
                &&& mark == t[frac_end]
                &&& frac_end + 1 + esign.len() + digits.len() == t.len()
                &&& esign == t.subrange(frac_end + 1, frac_end + 1 + esign.len())
                &&& digits == t.subrange(frac_end + 1 + esign.len(), t.len() as int)
            },
            None => frac_end == t.len(),
        },
    ensures
        t == literal_text(
            t.subrange(0, from),
            t.subrange(from, int_end),
            point,
            t.subrange(frac, frac_end),
            exponent,
        ),
{
    reveal(literal_text);
    let fraction = t.subrange(frac, frac_end);
    let middle = if point {
        seq!['.' as u8] + fraction
    } else {
        Seq::empty()
    };
    assert(t.subrange(0, int_end) =~= t.subrange(0, from) + t.subrange(from, int_end));
    assert(t.subrange(int_end, frac_end) =~= middle);
    assert(t.subrange(0, frac_end) =~= t.subrange(0, int_end) + middle);
    let tail = t.subrange(frac_end, t.len() as int);
    assert(t =~= t.subrange(0, frac_end) + tail);
    match exponent {
        Some((mark, esign, digits)) => {
            assert(tail =~= seq![mark] + esign + digits);
        },
        None => {
            assert(tail =~= Seq::<u8>::empty());
        },
    }
}

/// A number is read where its text is a literal, and only there, and is the one nearest
/// to the quotient that the literal is.
pub proof fn numbers_are_nearest_to_their_literals(t: Seq<u8>)
    ensures
        crate::json::literal::number_of(t) is Some <==> crate::json::literal::literal(t) is Some,
        crate::json::literal::literal(t) matches Some(d) ==> {
            let up = if d.exponent >= 0 {
                crate::math::pow(10, d.exponent as nat)
            } else {
                1
            };
            let down = if d.exponent >= 0 {
                1
            } else {
                crate::math::pow(10, (-d.exponent) as nat)
            };
            crate::json::literal::number_of(t) == Some(
                crate::json::number::nearest(d.negative, d.digits * up, down),
            )
        },
{
    if let Some(d) = crate::json::literal::literal(t) {
        assert(d.digits * 1 == d.digits);
    }
}

/// The number that is nearest differs from the quotient by at most half a unit of its
/// last place, and its mantissa is even where it differs by exactly that; it is infinite
/// only from half a unit above the largest number on.
pub proof fn nearest_is_within_half_a_unit(negative: bool, num: nat, den: nat)
    requires
        den > 0,
    ensures
        match crate::json::number::nearest(negative, num, den) {
            Number::Finite { negative: sign, mantissa, exponent } => {
                let (a, b): (int, int) = if exponent >= 0 {
                    (num as int, (den * crate::math::pow(2, exponent as nat)) as int)
                } else {
                    ((num * crate::math::pow(2, (-exponent) as nat)) as int, den as int)
                };
                &&& sign == negative
                &&& 2 * (mantissa * b) - 2 * a <= b
                &&& 2 * a - 2 * (mantissa * b) <= b
                &&& (2 * (mantissa * b) - 2 * a == b || 2 * a - 2 * (mantissa * b) == b) ==> mantissa
                    % 2 == 0
            },
            Number::Infinite { negative: sign } => sign == negative && 2 * num
                >= 0x3f_ffff_ffff_ffff * (den * crate::math::pow(2, 971)),
        },
{
    crate::json::number::lemma_constants();
    crate::json::number::lemma_unit_exists(num, den);
    crate::json::number::nearest_is_wf(negative, num, den);
    let q = crate::json::number::unit(num, den);
    let high = crate::json::number::MANTISSA_HIGH as int;
    let low = crate::json::number::MANTISSA_LOW as int;
    let a = crate::json::number::scaled_num(num, q) as int;
    let b = crate::json::number::scaled_den(den, q) as int;
    crate::json::number::lemma_scaled_positive(den, q);
    let floor = a / b;
    let rest = a % b;
    vstd::arithmetic::div_mod::lemma_fundamental_div_mod(a, b);
    let m = crate::json::number::round_half_even(a as nat, b as nat) as int;
    assert((floor + 1) * b == b * floor + b) by (nonlinear_arith);
    assert(floor * b == b * floor) by (nonlinear_arith);
    assert(m == floor || m == floor + 1);
    assert(2 * (m * b) - 2 * a <= b);
    assert(2 * a - 2 * (m * b) <= b);
    assert((2 * (m * b) - 2 * a == b || 2 * a - 2 * (m * b) == b) ==> m % 2 == 0);
    assert(floor < high) by (nonlinear_arith)
        requires
            a == b * floor + rest,
            0 <= rest < b,
            a < b * high,
    ;
    assert(0 <= floor) by (nonlinear_arith)
        requires
            a == b * floor + rest,
            0 <= rest < b,
            a >= 0,
    ;
    if m == high {
        // One more on the exponent: half as many, of twice the unit.
        if q >= 0 {
            let p = crate::math::pow(2, q as nat);
            assert(crate::math::pow(2, (q + 1) as nat) == 2 * p);
            assert(den * (2 * p) == 2 * (den * p)) by (nonlinear_arith);
            assert(low * (2 * b) == high * b) by (nonlinear_arith)
                requires
                    high == 2 * low,
            ;
        } else {
            let p = crate::math::pow(2, (-q - 1) as nat);
            assert(crate::math::pow(2, (-q) as nat) == 2 * p);
            assert(num * (2 * p) == 2 * (num * p)) by (nonlinear_arith);
            assert(high * b == 2 * (low * b)) by (nonlinear_arith)
                requires
                    high == 2 * low,
            ;
            if q == -1 {
                assert(crate::math::pow(2, 0) == 1);
                assert(num * 1 == num && den * 1 == den);
            }
        }
    }
    if crate::json::number::nearest(negative, num, den) is Infinite {
        let top = crate::math::pow(2, 971) as int;
        let d = den as int;
        assert(q >= 971);
        if q == 971 {
            assert(m == high);
            assert(b == d * top);
            assert(2 * (high * b) - b == 0x3f_ffff_ffff_ffff * b) by (nonlinear_arith)
                requires
                    high == 0x20_0000_0000_0000,
            ;
        } else {
            crate::math::lemma_pow_monotone(2, 972, q as nat);
            assert(crate::math::pow(2, 972) == 2 * top);
            let p = crate::math::pow(2, q as nat) as int;
            assert(a >= b * low && b == d * p);
            assert(d * p >= 2 * (d * top)) by (nonlinear_arith)
                requires
                    p >= 2 * top,
                    d >= 0,
            ;
            assert(2 * a >= 0x3f_ffff_ffff_ffff * (d * top)) by (nonlinear_arith)
                requires
                    a >= b * low,
                    b >= 2 * (d * top),
                    low == 0x10_0000_0000_0000,
                    d * top >= 0,
            ;
        }
    }
}

/// A number is an integer if its mantissa and its power of two say so: not negative but
/// for zero, and without a fraction.
pub proof fn integers_are_numbers_without_a_fraction(
    negative: bool,
    mantissa: u64,
    exponent: i32,
    k: nat,
)
    ensures
        ({
            let n = Number::Finite { negative, mantissa, exponent };
            let held = if exponent >= 0 {
                k == mantissa as nat * crate::math::pow(2, exponent as nat)
            } else {
                k * crate::math::pow(2, (-exponent) as nat) == mantissa as nat
            };
            &&& n.integer() == Some(k) <==> held && (!negative || mantissa == 0)
            &&& (Number::Infinite { negative }).integer() is None
        }),
{
    if exponent < 0 {
        let p = crate::math::pow(2, (-exponent) as nat);
        crate::math::lemma_pow_positive(2, (-exponent) as nat);
        let m = mantissa as nat;
        vstd::arithmetic::div_mod::lemma_fundamental_div_mod(m as int, p as int);
        let floor = m / p;
        assert(p * floor == floor * p) by (nonlinear_arith);
        if k * p == m {
            vstd::arithmetic::div_mod::lemma_fundamental_div_mod_converse(
                m as int,
                p as int,
                k as int,
                0,
            );
        }
    }
}

/// A value is a `usize` if it is a number that is that integer.
pub proof fn only_whole_numbers_are_taken_as_usize(v: Json, k: usize)
    ensures
        crate::json::grammar::usize_of(v) == Some(k) <==> (v matches Json::Num(n) && n.integer()
            == Some(k as nat)),
{
}

/// The bits of a number are its sign, its exponent above the least one and its mantissa
/// without the leading bit; numbers at the least exponent without a leading bit have an
/// exponent of zero there, and the infinite ones the largest.
pub proof fn bits_are_sign_exponent_and_fraction(n: Number)
    requires
        n.wf(),
    ensures
        n.bits() < 0x1_0000_0000_0000_0000,
        ({
            let negative = match n {
                Number::Finite { negative, .. } => negative,
                Number::Infinite { negative } => negative,
            };
            let field = (n.bits() / 0x10_0000_0000_0000) % 2048;
            let fraction = n.bits() % 0x10_0000_0000_0000;
            &&& negative <==> n.bits() >= 0x8000_0000_0000_0000
            &&& match n {
                Number::Infinite { .. } => field == 2047 && fraction == 0,
                Number::Finite { mantissa, exponent, .. } => if field == 0 {
                    mantissa == fraction && exponent == -1074
                } else {
                    mantissa == 0x10_0000_0000_0000 + fraction && exponent == field - 1075
                        && field < 2047
                },
            }
        }),
{
    if let Number::Finite { negative, mantissa, exponent } = n {
        let unit: int = 0x10_0000_0000_0000;
        let sign: int = if negative {
            2048
        } else {
            0
        };
        let field: int = if mantissa < unit {
            0
        } else {
            exponent + 1075
        };
        let fraction: int = if mantissa < unit {
            mantissa as int
        } else {
            mantissa - unit
        };
        assert(n.bits() == (sign + field) * unit + fraction);
        assert(0 <= field < 2047);
    }
}

/// What is found under a key is the value of the first member of it; where nothing is
/// found no member has the key.
pub proof fn the_first_member_of_a_key_is_found(m: Seq<(Seq<char>, Json)>, key: Seq<char>)
    ensures
        match crate::json::grammar::lookup(m, key) {
            Some(v) => exists|i: int|
                #![trigger m[i]]
                0 <= i < m.len() && m[i] == (key, v) && forall|j: int|
                    0 <= j < i ==> (#[trigger] m[j]).0 != key,
            None => forall|j: int| 0 <= j < m.len() ==> (#[trigger] m[j]).0 != key,
        },
    decreases m.len(),
{
    if m.len() > 0 {
        if m[0].0 == key {
            assert(m[0] == (key, m[0].1));
        } else {
            let rest = m.drop_first();
            the_first_member_of_a_key_is_found(rest, key);
            match crate::json::grammar::lookup(rest, key) {
                Some(v) => {
                    let i = choose|i: int|
                        #![trigger rest[i]]
                        0 <= i < rest.len() && rest[i] == (key, v) && forall|j: int|
                            0 <= j < i ==> (#[trigger] rest[j]).0 != key;
                    assert(m[i + 1] == (key, v));
                    assert forall|j: int| 0 <= j < i + 1 implies (#[trigger] m[j]).0 != key by {
                        if j > 0 {
                            assert(rest[j - 1].0 != key);
                        }
                    }
                },
                None => {
                    assert forall|j: int| 0 <= j < m.len() implies (#[trigger] m[j]).0 != key by {
                        if j > 0 {
                            assert(rest[j - 1].0 != key);
                        }
                    }
                },
            }
        }
    }
}

/// The last value of a key is that of a member behind which no other has the key.
pub proof fn the_last_value_is_given_last(m: Seq<(Seq<char>, Json)>, key: Seq<char>)
    ensures
        match crate::json::grammar::last_value(m, key) {
            Some(v) => exists|i: int|
                #![trigger m[i]]
                0 <= i < m.len() && m[i] == (key, v) && forall|j: int|
                    i < j < m.len() ==> (#[trigger] m[j]).0 != key,
            None => forall|j: int| 0 <= j < m.len() ==> (#[trigger] m[j]).0 != key,
        },
    decreases m.len(),
{
    if m.len() > 0 {
        let last = m.len() - 1;
        if m[last].0 == key {
            assert(m[last] == (key, m[last].1));
        } else {
            let front = m.drop_last();
            the_last_value_is_given_last(front, key);
            match crate::json::grammar::last_value(front, key) {
                Some(v) => {
                    let i = choose|i: int|
                        #![trigger front[i]]
                        0 <= i < front.len() && front[i] == (key, v) && forall|j: int|
                            i < j < front.len() ==> (#[trigger] front[j]).0 != key;
                    assert(m[i] == (key, v));
                    assert forall|j: int| i < j < m.len() implies (#[trigger] m[j]).0 != key by {
                        if j < last {
                            assert(front[j].0 != key);
                        }
                    }
                },
                None => {
                    assert forall|j: int| 0 <= j < m.len() implies (#[trigger] m[j]).0 != key by {
                        if j < last {
                            assert(front[j].0 != key);
                        }
                    }
                },
            }
        }
    }
}

/// Only an object has members.
pub proof fn only_objects_have_members(v: Json, key: Seq<char>)
    ensures
        match v {
            Json::Obj(m) => crate::json::grammar::member(v, key) == crate::json::grammar::lookup(
                m,
                key,
            ),
            _ => crate::json::grammar::member(v, key) is None,
        },
{
}

/// A value stands for what it holds.
pub proof fn values_stand_for_what_they_hold(
    b: bool,
    n: Number,
    s: String,
    a: Vec<Value>,
    o: crate::json::Object,
)
    ensures
        Value::Null@ == Json::Null,
        Value::Bool(b)@ == Json::Bool(b),
        Value::Num(n)@ == Json::Num(n),
        Value::Str(s)@ == Json::Str(s@),
        Value::Arr(a)@ is Arr,
        Value::Arr(a)@->Arr_0.len() == a@.len(),
        forall|i: int| 0 <= i < a@.len() ==> #[trigger] Value::Arr(a)@->Arr_0[i] == a@[i]@,
        Value::Obj(o)@ == Json::Obj(o@),
{
    crate::json::lemma_array_view(a);
}

/// Lists of values, of members and of listed members are taken one by one.
pub proof fn values_are_taken_one_by_one(
    a: Seq<Value>,
    m: Seq<(String, Value)>,
    l: Seq<(&str, &Value)>,
    i: int,
)
    ensures
        crate::json::values(a).len() == a.len(),
        0 <= i < a.len() ==> crate::json::values(a)[i] == a[i]@,
        crate::json::members(m).len() == m.len(),
        0 <= i < m.len() ==> crate::json::members(m)[i] == (m[i].0@, m[i].1@),
        crate::json::listing(l).len() == l.len(),
        0 <= i < l.len() ==> crate::json::listing(l)[i] == (l[i].0@, l[i].1@),
{
}

/// Values are the same if they are equal, but for the order of the members of objects and
/// for the sign of zero.
pub proof fn values_are_the_same_if_they_are_equal(v: Json)
    requires
        crate::json::grammar::keys_distinct(v),
    ensures
        crate::json::grammar::same(v, v),
    decreases v,
{
    match v {
        Json::Arr(a) => {
            assert forall|i: int| 0 <= i < a.len() implies crate::json::grammar::same(
                #[trigger] a[i],
                a[i],
            ) by {
                assert(decreases_to!(v => a));
                assert(decreases_to!(a => a[i]));
                values_are_the_same_if_they_are_equal(a[i]);
            }
        },
        Json::Obj(m) => {
            assert forall|i: int| 0 <= i < m.len() implies (crate::json::grammar::lookup(
                m,
                (#[trigger] m[i]).0,
            ) matches Some(w) && crate::json::grammar::same(m[i].1, w)) by {
                assert(decreases_to!(v => m));
                assert(decreases_to!(m => m[i]));
                values_are_the_same_if_they_are_equal(m[i].1);
                assert(m.contains((m[i].0, m[i].1)));
                crate::json::grammar::lemma_lookup_member(m, m[i].0, m[i].1);
            }
        },
        _ => {},
    }
}

/// Values of different kinds are not the same; words and texts are the same only if they
/// are equal; arrays only if they are as long and their elements are the same, one by
/// one; objects only if they have as many members and each has its value there.
pub proof fn values_that_differ_are_told_apart(a: Json, b: Json)
    requires
        crate::json::grammar::same(a, b),
    ensures
        match a {
            Json::Num(x) => b matches Json::Num(y) && (x == y || (x.integer() == Some(0nat)
                && y.integer() == Some(0nat))),
            Json::Arr(x) => b matches Json::Arr(y) && x.len() == y.len() && forall|i: int|
                0 <= i < x.len() ==> crate::json::grammar::same(#[trigger] x[i], y[i]),
            Json::Obj(x) => b matches Json::Obj(y) && x.len() == y.len() && forall|i: int|
                0 <= i < x.len() ==> (crate::json::grammar::member(b, (#[trigger] x[i]).0) matches Some(
                    v,
                ) && crate::json::grammar::same(x[i].1, v)),
            _ => a == b,
        },
{
    if let (Json::Num(x), Json::Num(y)) = (a, b) {
        if x != y {
            lemma_zero_is_an_integer(x);
            lemma_zero_is_an_integer(y);
        }
    }
}

proof fn lemma_zero_is_an_integer(n: Number)
    requires
        n is Finite,
        n->mantissa == 0,
    ensures
        n.integer() == Some(0nat),
{
    if let Number::Finite { negative, mantissa, exponent } = n {
        if exponent >= 0 {
            assert(0 * crate::math::pow(2, exponent as nat) == 0);
        } else {
            assert(0 * crate::math::pow(2, (-exponent) as nat) == 0);
        }
        integers_are_numbers_without_a_fraction(negative, mantissa, exponent, 0);
    }
}

/// Does the text have the fault, at the place where the fault says it is?
pub open spec fn has_fault(s: Seq<u8>, f: Fault) -> bool {
    match f {
        Fault::End => true,
        Fault::Trailing(at) => stops_at(s, at),
        Fault::Literal(at) => 0 <= at < s.len(),
        Fault::Number { text, at } => {
            &&& 0 <= at
            &&& at + text.len() <= s.len()
            &&& s.subrange(at, at + text.len()) == text
            &&& crate::json::written::number_bytes(text)
            &&& crate::json::literal::literal(text) is None
        },
        Fault::Key(at) => stops_at(s, at) && s[at] as char != '"',
        Fault::ShortCode => true,
        Fault::CodeDigits => true,
        Fault::CodePoint => true,
        Fault::Escape(b) => crate::json::written::short_char(b) is None && b as char != 'u',
        Fault::NotUtf8(bytes) => !valid_utf8(bytes),
        Fault::ArrayMark(at) => stops_at(s, at) && s[at] as char != ',' && s[at] as char != ']',
        Fault::Colon(at) => stops_at(s, at) && s[at] as char != ':',
        Fault::ObjectMark(at) => stops_at(s, at) && s[at] as char != ',' && s[at] as char != '}',
    }
}

/// There is a byte at the place, and it is no white space.
pub open spec fn stops_at(s: Seq<u8>, at: int) -> bool {
    0 <= at < s.len() && !crate::json::grammar::is_space(s[at])
}

/// White space is skipped up to what is none.
proof fn lemma_stops(s: Seq<u8>, i: int)
    requires
        0 <= i <= s.len(),
    ensures
        i <= crate::json::grammar::skip_space(s, i) <= s.len(),
        crate::json::grammar::skip_space(s, i) < s.len() ==> stops_at(
            s,
            crate::json::grammar::skip_space(s, i),
        ),
    decreases s.len() - i,
{
    if i < s.len() && crate::json::grammar::is_space(s[i]) {
        lemma_stops(s, i + 1);
    }
}

proof fn lemma_text_faults(s: Seq<u8>, i: int)
    requires
        0 <= i <= s.len(),
    ensures
        crate::json::grammar::text_at(s, i) matches Err(f) ==> has_fault(s, f),
    decreases s.len() - i,
{
    if i < s.len() && s[i] == 92 {
        if let Ok((c, end)) = crate::json::grammar::escape_at(s, i + 1) {
            lemma_text_faults(s, end);
        }
    } else if i < s.len() && s[i] != 34 {
        crate::json::grammar::lemma_plain_end(s, i + 1);
        let end = crate::json::grammar::plain_end(s, i);
        if valid_utf8(s.subrange(i, end)) {
            lemma_text_faults(s, end);
        }
    }
}

proof fn lemma_value_faults(s: Seq<u8>, i: int)
    requires
        0 <= i <= s.len(),
    ensures
        crate::json::grammar::value_at(s, i) matches Err(f) ==> has_fault(s, f),
    decreases s.len() - i, 1int,
{
    if i >= s.len() {
    } else if s[i] == 123 {
        lemma_stops(s, i + 1);
        lemma_members_faults(s, i + 1);
    } else if s[i] == 91 {
        lemma_stops(s, i + 1);
        lemma_elements_faults(s, i + 1);
    } else if s[i] == 34 {
        lemma_text_faults(s, i + 1);
    } else if s[i] == 116 || s[i] == 102 || s[i] == 110 {
    } else {
        crate::json::readings::lemma_number_bytes(s, i);
    }
}

proof fn lemma_elements_faults(s: Seq<u8>, i: int)
    requires
        0 <= i <= s.len(),
    ensures
        crate::json::grammar::elements_at(s, i) matches Err(f) ==> has_fault(s, f),
    decreases s.len() - i, 2int,
{
    lemma_stops(s, i);
    let from = crate::json::grammar::skip_space(s, i);
    lemma_value_faults(s, from);
    crate::json::grammar::value_ends_inside(s, from);
    if let Ok((v, end)) = crate::json::grammar::value_at(s, from) {
        lemma_stops(s, end);
        let mark = crate::json::grammar::skip_space(s, end);
        if mark < s.len() && s[mark] == 44 {
            lemma_elements_faults(s, mark + 1);
        }
    }
}

proof fn lemma_members_faults(s: Seq<u8>, i: int)
    requires
        0 <= i <= s.len(),
    ensures
        crate::json::grammar::members_at(s, i) matches Err(f) ==> has_fault(s, f),
    decreases s.len() - i, 2int,
{
    lemma_stops(s, i);
    let from = crate::json::grammar::skip_space(s, i);
    if from < s.len() {
        lemma_text_faults(s, from + 1);
        crate::json::grammar::lemma_text_end(s, from + 1);
    }
    if let Ok((key, key_end)) = crate::json::grammar::string_at(s, from) {
        lemma_stops(s, key_end);
        let colon = crate::json::grammar::skip_space(s, key_end);
        if colon < s.len() && s[colon] == 58 {
            lemma_stops(s, colon + 1);
            let start = crate::json::grammar::skip_space(s, colon + 1);
            lemma_value_faults(s, start);
            crate::json::grammar::value_ends_inside(s, start);
            if let Ok((v, end)) = crate::json::grammar::value_at(s, start) {
                lemma_stops(s, end);
                let mark = crate::json::grammar::skip_space(s, end);
                if mark < s.len() && s[mark] == 44 {
                    lemma_members_faults(s, mark + 1);
                }
            }
        }
    }
}

/// A text that is refused has the fault that is named, at the place that is named.
pub proof fn faults_stand_where_they_are_named(s: Seq<u8>)
    ensures
        crate::json::grammar::document(s) matches Err(f) ==> has_fault(s, f),
{
    lemma_stops(s, 0);
    let from = crate::json::grammar::skip_space(s, 0);
    lemma_value_faults(s, from);
    crate::json::grammar::value_ends_inside(s, from);
    if let Ok((v, end)) = crate::json::grammar::value_at(s, from) {
        lemma_stops(s, end);
    }
}

/// What is said of a fault, place by place: the words, and behind them the place.
pub proof fn faults_are_told_with_their_place(at: nat, text: Seq<u8>, b: u8)
    ensures
        Fault::End.message() == "unexpected end of JSON"@,
        Fault::Trailing(at as int).message() == "trailing bytes after JSON value at "@
            + crate::text::decimal(at),
        Fault::Literal(at as int).message() == "bad literal at "@ + crate::text::decimal(at),
        (Fault::Number { text, at: at as int }).message() == "bad number `"@
            + crate::json::grammar::latin(text) + "` at "@ + crate::text::decimal(at) + ": "@ + (
        if text == Seq::<u8>::empty() {
            "cannot parse float from empty string"@
        } else {
            "invalid float literal"@
        }),
        Fault::Key(at as int).message() == "expected string at "@ + crate::text::decimal(at),
        Fault::ShortCode.message() == "truncated \\u escape"@,
        Fault::CodeDigits.message() == "bad \\u escape: invalid digit found in string"@,
        Fault::CodePoint.message() == "bad code point"@,
        Fault::Escape(b).message() == "bad escape \\"@ + seq![b as char],
        Fault::ArrayMark(at as int).message() == "expected , or ] at "@ + crate::text::decimal(at),
        Fault::Colon(at as int).message() == "expected : at "@ + crate::text::decimal(at),
        Fault::ObjectMark(at as int).message() == "expected , or } at "@ + crate::text::decimal(at),
{
    if text.len() == 0 {
        assert(text =~= Seq::<u8>::empty());
    }
}

} // verus!
