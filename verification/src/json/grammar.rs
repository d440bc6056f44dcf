//! What a JSON text denotes, as a function of its bytes: the value and where it
//! ends, or the first fault and what is said of it.
use crate::json::number::Number;
use vstd::prelude::*;
use vstd::utf8::*;

verus! {

/// A JSON value.
pub ghost enum Json {
    Null,
    Bool(bool),
    Num(Number),
    Str(Seq<char>),
    Arr(Seq<Json>),
    /// The members, no key twice.
    Obj(Seq<(Seq<char>, Json)>),
}

/// Why a text is refused.
pub ghost enum Fault {
    /// The text ends where a byte must follow.
    End,
    /// Something follows the value.
    Trailing(int),
    /// No `true`, `false` or `null`, or one that runs into a longer word.
    Literal(int),
    /// Not a number.
    Number { text: Seq<u8>, at: int },
    /// No string where a key must stand.
    Key(int),
    /// Fewer than four bytes follow `\u`.
    ShortCode,
    /// Four bytes after `\u` that are not hexadecimal digits.
    CodeDigits,
    /// A surrogate.
    CodePoint,
    /// No such escape.
    Escape(u8),
    /// Bytes that are not UTF-8.
    NotUtf8(Seq<u8>),
    /// Neither a comma nor the end of the array.
    ArrayMark(int),
    /// No colon behind a key.
    Colon(int),
    /// Neither a comma nor the end of the object.
    ObjectMark(int),
}

/// The characters whose codes are the bytes.
pub open spec fn latin(bytes: Seq<u8>) -> Seq<char> {
    Seq::new(bytes.len(), |i: int| bytes[i] as char)
}

impl Fault {
    /// What is said of the fault.
    pub open spec fn message(self) -> Seq<char> {
        match self {
            Fault::End => "unexpected end of JSON"@,
            Fault::Trailing(at) => "trailing bytes after JSON value at "@ + crate::text::decimal(
                at as nat,
            ),
            Fault::Literal(at) => "bad literal at "@ + crate::text::decimal(at as nat),
            Fault::Number { text, at } => "bad number `"@ + latin(text) + "` at "@
                + crate::text::decimal(at as nat) + ": "@ + (if text.len() == 0 {
                "cannot parse float from empty string"@
            } else {
                "invalid float literal"@
            }),
            Fault::Key(at) => "expected string at "@ + crate::text::decimal(at as nat),
            Fault::ShortCode => "truncated \\u escape"@,
            Fault::CodeDigits => "bad \\u escape: invalid digit found in string"@,
            Fault::CodePoint => "bad code point"@,
            Fault::Escape(b) => "bad escape \\"@ + seq![b as char],
            Fault::NotUtf8(bytes) => crate::text::utf8_error_text(bytes),
            Fault::ArrayMark(at) => "expected , or ] at "@ + crate::text::decimal(at as nat),
            Fault::Colon(at) => "expected : at "@ + crate::text::decimal(at as nat),
            Fault::ObjectMark(at) => "expected , or } at "@ + crate::text::decimal(at as nat),
        }
    }
}

/// Space, tab, line feed or carriage return.
pub open spec fn is_space(b: u8) -> bool {
    b == 32 || b == 9 || b == 10 || b == 13
}

/// The first position from `i` on that holds no space.
pub open spec fn skip_space(s: Seq<u8>, i: int) -> int
    decreases s.len() - i,
{
    if 0 <= i < s.len() && is_space(s[i]) {
        skip_space(s, i + 1)
    } else {
        i
    }
}

/// A letter, a digit or an underscore: a byte that makes a word longer.
pub open spec fn is_word(b: u8) -> bool {
    48 <= b <= 57 || 65 <= b <= 90 || 97 <= b <= 122 || b == 95
}

/// Does `word` stand at `i`?
pub open spec fn stands_at(s: Seq<u8>, i: int, word: Seq<u8>) -> bool {
    i + word.len() <= s.len() && s.subrange(i, i + word.len()) == word
}

/// The bytes of `true`.
pub open spec fn word_true() -> Seq<u8> {
    seq![116u8, 114u8, 117u8, 101u8]
}

/// The bytes of `false`.
pub open spec fn word_false() -> Seq<u8> {
    seq![102u8, 97u8, 108u8, 115u8, 101u8]
}

/// The bytes of `null`.
pub open spec fn word_null() -> Seq<u8> {
    seq![110u8, 117u8, 108u8, 108u8]
}

/// The value of a word that ends at `end`, unless it runs on.
pub open spec fn word_value(s: Seq<u8>, end: int, v: Json) -> Result<(Json, int), Fault> {
    if end < s.len() && is_word(s[end]) {
        Err(Fault::Literal(end))
    } else {
        Ok((v, end))
    }
}

/// One of the three words at `i`.
pub open spec fn literal_at(s: Seq<u8>, i: int) -> Result<(Json, int), Fault> {
    if stands_at(s, i, word_true()) {
        word_value(s, i + 4, Json::Bool(true))
    } else if stands_at(s, i, word_false()) {
        word_value(s, i + 5, Json::Bool(false))
    } else if stands_at(s, i, word_null()) {
        word_value(s, i + 4, Json::Null)
    } else {
        Err(Fault::Literal(i))
    }
}

/// A byte that a number is made of.
pub open spec fn is_number_byte(b: u8) -> bool {
    crate::json::literal::is_digit(b) || b == 46 || b == 101 || b == 69 || b == 45 || b == 43
}

/// The first position from `i` on that holds no byte of a number.
pub open spec fn number_end(s: Seq<u8>, i: int) -> int
    decreases s.len() - i,
{
    if 0 <= i < s.len() && is_number_byte(s[i]) {
        number_end(s, i + 1)
    } else {
        i
    }
}

/// The number at `i`.
pub open spec fn number_at(s: Seq<u8>, i: int) -> Result<(Json, int), Fault> {
    let end = number_end(s, i);
    let text = s.subrange(i, end);
    match crate::json::literal::number_of(text) {
        Some(n) => Ok((Json::Num(n), end)),
        None => Err(Fault::Number { text, at: i }),
    }
}

/// The value of a hexadecimal digit.
pub open spec fn hex_digit(b: u8) -> Option<nat> {
    if 48 <= b <= 57 {
        Some((b - 48) as nat)
    } else if 65 <= b <= 70 {
        Some((b - 55) as nat)
    } else if 97 <= b <= 102 {
        Some((b - 87) as nat)
    } else {
        None
    }
}

/// Is the code that of a character?
pub open spec fn is_code_point(code: int) -> bool {
    0 <= code <= 0xd7ff || 0xe000 <= code <= 0x10ffff
}

/// The character that four hexadecimal digits at `i` name.
pub open spec fn code_at(s: Seq<u8>, i: int) -> Result<(char, int), Fault> {
    if i + 4 > s.len() {
        Err(Fault::ShortCode)
    } else if !valid_utf8(s.subrange(i, i + 4)) {
        Err(Fault::NotUtf8(s.subrange(i, i + 4)))
    } else {
        match (hex_digit(s[i]), hex_digit(s[i + 1]), hex_digit(s[i + 2]), hex_digit(s[i + 3])) {
            (Some(a), Some(b), Some(c), Some(d)) => {
                let code = 4096 * a + 256 * b + 16 * c + d;
                if is_code_point(code as int) {
                    Ok((code as char, i + 4))
                } else {
                    Err(Fault::CodePoint)
                }
            },
            _ => Err(Fault::CodeDigits),
        }
    }
}

/// The character that an escape names, from behind the backslash on.
pub open spec fn escape_at(s: Seq<u8>, i: int) -> Result<(char, int), Fault> {
    if i >= s.len() {
        Err(Fault::End)
    } else if s[i] == 34 || s[i] == 92 || s[i] == 47 {
        Ok((s[i] as char, i + 1))
    } else if s[i] == 98 {
        Ok(('\u{8}', i + 1))
    } else if s[i] == 102 {
        Ok(('\u{c}', i + 1))
    } else if s[i] == 110 {
        Ok(('\n', i + 1))
    } else if s[i] == 114 {
        Ok(('\r', i + 1))
    } else if s[i] == 116 {
        Ok(('\t', i + 1))
    } else if s[i] == 117 {
        code_at(s, i + 1)
    } else {
        Err(Fault::Escape(s[i]))
    }
}

/// The first position from `i` on that holds a quote or a backslash.
pub open spec fn plain_end(s: Seq<u8>, i: int) -> int
    decreases s.len() - i,
{
    if 0 <= i < s.len() && s[i] != 34 && s[i] != 92 {
        plain_end(s, i + 1)
    } else {
        i
    }
}

/// A result with text put before it.
pub open spec fn text_before(text: Seq<char>, r: Result<(Seq<char>, int), Fault>) -> Result<
    (Seq<char>, int),
    Fault,
> {
    match r {
        Ok((rest, end)) => Ok((text + rest, end)),
        Err(f) => Err(f),
    }
}

/// The text of a string from `i` on, up to and with the closing quote.
pub open spec fn text_at(s: Seq<u8>, i: int) -> Result<(Seq<char>, int), Fault>
    decreases s.len() - i,
    when 0 <= i
{
    if i >= s.len() {
        Err(Fault::End)
    } else if s[i] == 34 {
        Ok((Seq::empty(), i + 1))
    } else if s[i] == 92 {
        match escape_at(s, i + 1) {
            Ok((c, end)) => text_before(seq![c], text_at(s, end)),
            Err(f) => Err(f),
        }
    } else {
        let end = plain_end(s, i);
        let run = s.subrange(i, end);
        proof {
            lemma_plain_end(s, i + 1);
        }
        if valid_utf8(run) {
            text_before(decode_utf8(run), text_at(s, end))
        } else {
            Err(Fault::NotUtf8(run))
        }
    }
}

/// The string at `i`.
pub open spec fn string_at(s: Seq<u8>, i: int) -> Result<(Seq<char>, int), Fault> {
    if i >= s.len() {
        Err(Fault::End)
    } else if s[i] != 34 {
        Err(Fault::Key(i))
    } else {
        text_at(s, i + 1)
    }
}

/// The members without those of a key.
pub open spec fn without(m: Seq<(Seq<char>, Json)>, key: Seq<char>) -> Seq<(Seq<char>, Json)>
    decreases m.len(),
{
    if m.len() == 0 {
        m
    } else if m.last().0 == key {
        without(m.drop_last(), key)
    } else {
        without(m.drop_last(), key).push(m.last())
    }
}

/// A member put behind the others, in place of an earlier one of its key.
pub open spec fn with_member(m: Seq<(Seq<char>, Json)>, key: Seq<char>, v: Json) -> Seq<
    (Seq<char>, Json),
> {
    without(m, key).push((key, v))
}

/// Of the members of one key only the last.
pub open spec fn last_of_each(m: Seq<(Seq<char>, Json)>) -> Seq<(Seq<char>, Json)>
    decreases m.len(),
{
    if m.len() == 0 {
        m
    } else {
        with_member(last_of_each(m.drop_last()), m.last().0, m.last().1)
    }
}

/// A result with a value put before it.
pub open spec fn value_before(v: Json, r: Result<(Seq<Json>, int), Fault>) -> Result<
    (Seq<Json>, int),
    Fault,
> {
    match r {
        Ok((rest, end)) => Ok((seq![v] + rest, end)),
        Err(f) => Err(f),
    }
}

/// A result with a member put before it.
pub open spec fn member_before(
    m: (Seq<char>, Json),
    r: Result<(Seq<(Seq<char>, Json)>, int), Fault>,
) -> Result<(Seq<(Seq<char>, Json)>, int), Fault> {
    match r {
        Ok((rest, end)) => Ok((seq![m] + rest, end)),
        Err(f) => Err(f),
    }
}

/// The elements of an array from `i` on, where one must stand, up to and with
/// the closing bracket. (A value takes at least one byte, so that the test of
/// its end leaves nothing out.)
pub open spec fn elements_at(s: Seq<u8>, i: int) -> Result<(Seq<Json>, int), Fault>
    decreases s.len() - i, 2int,
    when 0 <= i <= s.len()
{
    let from = skip_space(s, i);
    proof {
        lemma_skip_space(s, i);
    }
    match value_at(s, from) {
        Err(f) => Err(f),
        Ok((v, end)) => {
            let mark = skip_space(s, end);
            if !(i < end <= s.len()) || mark >= s.len() {
                Err(Fault::End)
            } else if s[mark] == 44 {
                proof {
                    lemma_skip_space(s, end);
                }
                value_before(v, elements_at(s, mark + 1))
            } else if s[mark] == 93 {
                Ok((seq![v], mark + 1))
            } else {
                Err(Fault::ArrayMark(mark))
            }
        },
    }
}

/// The members of an object from `i` on, where one must stand, up to and with
/// the closing brace. (The tests of the ends leave nothing out here either.)
pub open spec fn members_at(s: Seq<u8>, i: int) -> Result<(Seq<(Seq<char>, Json)>, int), Fault>
    decreases s.len() - i, 2int,
    when 0 <= i <= s.len()
{
    match string_at(s, skip_space(s, i)) {
        Err(f) => Err(f),
        Ok((key, key_end)) => {
            let colon = skip_space(s, key_end);
            if !(i < key_end <= s.len()) || colon >= s.len() {
                Err(Fault::End)
            } else if s[colon] != 58 {
                Err(Fault::Colon(colon))
            } else {
                let from = skip_space(s, colon + 1);
                proof {
                    lemma_skip_space(s, key_end);
                    lemma_skip_space(s, colon + 1);
                }
                match value_at(s, from) {
                    Err(f) => Err(f),
                    Ok((v, end)) => {
                        let mark = skip_space(s, end);
                        if !(i < end <= s.len()) || mark >= s.len() {
                            Err(Fault::End)
                        } else if s[mark] == 44 {
                            proof {
                                lemma_skip_space(s, end);
                            }
                            member_before((key, v), members_at(s, mark + 1))
                        } else if s[mark] == 125 {
                            Ok((seq![(key, v)], mark + 1))
                        } else {
                            Err(Fault::ObjectMark(mark))
                        }
                    },
                }
            }
        },
    }
}

/// The array whose opening bracket is at `i`.
pub open spec fn array_at(s: Seq<u8>, i: int) -> Result<(Json, int), Fault>
    decreases s.len() - i, 0int,
    when 0 <= i < s.len()
{
    let from = skip_space(s, i + 1);
    if from >= s.len() {
        Err(Fault::End)
    } else if s[from] == 93 {
        Ok((Json::Arr(Seq::empty()), from + 1))
    } else {
        match elements_at(s, i + 1) {
            Ok((items, end)) => Ok((Json::Arr(items), end)),
            Err(f) => Err(f),
        }
    }
}

/// The object whose opening brace is at `i`.
pub open spec fn object_at(s: Seq<u8>, i: int) -> Result<(Json, int), Fault>
    decreases s.len() - i, 0int,
    when 0 <= i < s.len()
{
    let from = skip_space(s, i + 1);
    if from >= s.len() {
        Err(Fault::End)
    } else if s[from] == 125 {
        Ok((Json::Obj(Seq::empty()), from + 1))
    } else {
        match members_at(s, i + 1) {
            Ok((members, end)) => Ok((Json::Obj(last_of_each(members)), end)),
            Err(f) => Err(f),
        }
    }
}

/// The value at `i`.
pub open spec fn value_at(s: Seq<u8>, i: int) -> Result<(Json, int), Fault>
    decreases s.len() - i, 1int,
    when 0 <= i <= s.len()
{
    if i >= s.len() {
        Err(Fault::End)
    } else if s[i] == 123 {
        object_at(s, i)
    } else if s[i] == 91 {
        array_at(s, i)
    } else if s[i] == 34 {
        match string_at(s, i) {
            Ok((text, end)) => Ok((Json::Str(text), end)),
            Err(f) => Err(f),
        }
    } else if s[i] == 116 || s[i] == 102 || s[i] == 110 {
        literal_at(s, i)
    } else {
        number_at(s, i)
    }
}

/// The value that a whole text denotes: one value, spaces round it.
pub open spec fn document(s: Seq<u8>) -> Result<Json, Fault> {
    match value_at(s, skip_space(s, 0)) {
        Err(f) => Err(f),
        Ok((v, end)) => {
            let rest = skip_space(s, end);
            if rest == s.len() {
                Ok(v)
            } else {
                Err(Fault::Trailing(rest))
            }
        },
    }
}

/// Skipping spaces goes forward and stays inside.
pub proof fn lemma_skip_space(s: Seq<u8>, i: int)
    requires
        0 <= i <= s.len(),
    ensures
        i <= skip_space(s, i) <= s.len(),
    decreases s.len() - i,
{
    if i < s.len() && is_space(s[i]) {
        lemma_skip_space(s, i + 1);
    }
}

/// A plain run goes forward and stays inside.
pub proof fn lemma_plain_end(s: Seq<u8>, i: int)
    requires
        0 <= i <= s.len(),
    ensures
        i <= plain_end(s, i) <= s.len(),
    decreases s.len() - i,
{
    if i < s.len() && s[i] != 34 && s[i] != 92 {
        lemma_plain_end(s, i + 1);
    }
}

/// So does a number.
pub proof fn lemma_number_end(s: Seq<u8>, i: int)
    requires
        0 <= i <= s.len(),
    ensures
        i <= number_end(s, i) <= s.len(),
    decreases s.len() - i,
{
    if i < s.len() && is_number_byte(s[i]) {
        lemma_number_end(s, i + 1);
    }
}

/// Skipping spaces twice is skipping them once.
pub proof fn lemma_skip_space_twice(s: Seq<u8>, i: int)
    requires
        0 <= i <= s.len(),
    ensures
        skip_space(s, skip_space(s, i)) == skip_space(s, i),
    decreases s.len() - i,
{
    if i < s.len() && is_space(s[i]) {
        lemma_skip_space_twice(s, i + 1);
    }
}

/// A string ends behind where it begins.
pub proof fn lemma_text_end(s: Seq<u8>, i: int)
    requires
        0 <= i <= s.len(),
    ensures
        text_at(s, i) matches Ok((_, end)) ==> i < end <= s.len(),
    decreases s.len() - i,
{
    if i < s.len() && s[i] == 92 {
        if let Ok((c, end)) = escape_at(s, i + 1) {
            lemma_text_end(s, end);
        }
    } else if i < s.len() && s[i] != 34 {
        lemma_plain_end(s, i + 1);
        if valid_utf8(s.subrange(i, plain_end(s, i))) {
            lemma_text_end(s, plain_end(s, i));
        }
    }
}

/// A value ends behind where it begins, and inside the text.
pub proof fn value_ends_inside(s: Seq<u8>, i: int)
    requires
        0 <= i <= s.len(),
    ensures
        value_at(s, i) matches Ok((_, end)) ==> i < end <= s.len(),
    decreases s.len() - i, 1int,
{
    if i >= s.len() {
    } else if s[i] == 123 {
        lemma_skip_space(s, i + 1);
        lemma_members_end(s, i + 1);
    } else if s[i] == 91 {
        lemma_skip_space(s, i + 1);
        lemma_elements_end(s, i + 1);
    } else if s[i] == 34 {
        lemma_text_end(s, i + 1);
    } else if s[i] == 116 || s[i] == 102 || s[i] == 110 {
    } else {
        lemma_number_end(s, i);
        let text = s.subrange(i, number_end(s, i));
        if text.len() == 0 {
            assert(crate::json::literal::literal(text) is None);
        }
    }
}

proof fn lemma_elements_end(s: Seq<u8>, i: int)
    requires
        0 <= i <= s.len(),
    ensures
        elements_at(s, i) matches Ok((_, end)) ==> i < end <= s.len(),
    decreases s.len() - i, 2int,
{
    lemma_skip_space(s, i);
    value_ends_inside(s, skip_space(s, i));
    if let Ok((v, end)) = value_at(s, skip_space(s, i)) {
        lemma_skip_space(s, end);
        let mark = skip_space(s, end);
        if mark < s.len() && s[mark] == 44 {
            lemma_elements_end(s, mark + 1);
        }
    }
}

proof fn lemma_members_end(s: Seq<u8>, i: int)
    requires
        0 <= i <= s.len(),
    ensures
        members_at(s, i) matches Ok((_, end)) ==> i < end <= s.len(),
    decreases s.len() - i, 2int,
{
    lemma_skip_space(s, i);
    let from = skip_space(s, i);
    if from < s.len() {
        lemma_text_end(s, from + 1);
    }
    if let Ok((key, key_end)) = string_at(s, from) {
        lemma_skip_space(s, key_end);
        let colon = skip_space(s, key_end);
        if colon < s.len() && s[colon] == 58 {
            lemma_skip_space(s, colon + 1);
            value_ends_inside(s, skip_space(s, colon + 1));
            if let Ok((v, end)) = value_at(s, skip_space(s, colon + 1)) {
                lemma_skip_space(s, end);
                let mark = skip_space(s, end);
                if mark < s.len() && s[mark] == 44 {
                    lemma_members_end(s, mark + 1);
                }
            }
        }
    }
}

/// The value of the first member of a key.
pub open spec fn lookup(m: Seq<(Seq<char>, Json)>, key: Seq<char>) -> Option<Json>
    decreases m.len(),
{
    if m.len() == 0 {
        None
    } else if m[0].0 == key {
        Some(m[0].1)
    } else {
        lookup(m.drop_first(), key)
    }
}

/// The value of the last member of a key.
pub open spec fn last_value(m: Seq<(Seq<char>, Json)>, key: Seq<char>) -> Option<Json>
    decreases m.len(),
{
    if m.len() == 0 {
        None
    } else if m.last().0 == key {
        Some(m.last().1)
    } else {
        last_value(m.drop_last(), key)
    }
}

/// No key twice.
pub open spec fn distinct_keys(m: Seq<(Seq<char>, Json)>) -> bool {
    forall|i: int, j: int| 0 <= i < j < m.len() ==> (#[trigger] m[i]).0 != (#[trigger] m[j]).0
}

/// The first member of a key, found from the back.
proof fn lemma_lookup_last(m: Seq<(Seq<char>, Json)>, key: Seq<char>)
    requires
        m.len() > 0,
    ensures
        lookup(m, key) == match lookup(m.drop_last(), key) {
            Some(v) => Some(v),
            None => if m.last().0 == key {
                Some(m.last().1)
            } else {
                None
            },
        },
    decreases m.len(),
{
    if m.len() > 1 {
        lemma_lookup_last(m.drop_first(), key);
        assert(m.drop_first().drop_last() =~= m.drop_last().drop_first());
        assert(m.drop_last()[0] == m[0]);
        assert(m.drop_first().last() == m.last());
    } else {
        assert(lookup(m.drop_first(), key) is None);
        assert(lookup(m.drop_last(), key) is None);
    }
}

proof fn lemma_without(m: Seq<(Seq<char>, Json)>, key: Seq<char>, other: Seq<char>)
    ensures
        lookup(without(m, key), key) is None,
        other != key ==> lookup(without(m, key), other) == lookup(m, other),
        forall|i: int|
            0 <= i < without(m, key).len() ==> (#[trigger] without(m, key)[i]).0 != key && exists|
                j: int,
            |
                0 <= j < m.len() && m[j] == without(m, key)[i],
        distinct_keys(m) ==> distinct_keys(without(m, key)),
    decreases m.len(),
{
    if m.len() > 0 {
        let front = m.drop_last();
        let w = without(m, key);
        lemma_without(front, key, other);
        lemma_lookup_last(m, other);
        if m.last().0 != key {
            assert(w.drop_last() =~= without(front, key));
            lemma_lookup_last(w, key);
            lemma_lookup_last(w, other);
        }
        assert forall|i: int| 0 <= i < w.len() implies (#[trigger] w[i]).0 != key && exists|j: int|
            0 <= j < m.len() && m[j] == w[i] by {
            if m.last().0 != key && i == w.len() - 1 {
                assert(m[m.len() - 1] == w[i]);
            } else {
                assert(w[i] == without(front, key)[i]);
                let j = choose|j: int| 0 <= j < front.len() && front[j] == without(front, key)[i];
                assert(m[j] == w[i]);
            }
        }
        if distinct_keys(m) {
            assert(distinct_keys(front)) by {
                assert forall|i: int, j: int| 0 <= i < j < front.len() implies (
                #[trigger] front[i]).0 != (#[trigger] front[j]).0 by {
                    assert(m[i].0 != m[j].0);
                }
            }
            assert forall|i: int, j: int| 0 <= i < j < w.len() implies (#[trigger] w[i]).0 != (
            #[trigger] w[j]).0 by {
                if m.last().0 != key && j == w.len() - 1 {
                    assert(w[i] == without(front, key)[i]);
                    let n = choose|n: int|
                        0 <= n < front.len() && front[n] == without(front, key)[i];
                    assert(m[n].0 != m[m.len() - 1].0);
                } else {
                    assert(w[i] == without(front, key)[i]);
                    assert(w[j] == without(front, key)[j]);
                }
            }
        }
    }
}

/// Of members of one key the last is kept: no key stands twice, and what is
/// found under a key is what was last given for it.
pub proof fn last_member_wins(m: Seq<(Seq<char>, Json)>, key: Seq<char>)
    ensures
        distinct_keys(last_of_each(m)),
        lookup(last_of_each(m), key) == last_value(m, key),
    decreases m.len(),
{
    if m.len() > 0 {
        let front = last_of_each(m.drop_last());
        let last = m.last();
        last_member_wins(m.drop_last(), key);
        lemma_without(front, last.0, key);
        let all = last_of_each(m);
        assert(all.drop_last() =~= without(front, last.0));
        lemma_lookup_last(all, key);
        assert forall|i: int, j: int| 0 <= i < j < all.len() implies (#[trigger] all[i]).0 != (
        #[trigger] all[j]).0 by {
            assert(all[i] == without(front, last.0)[i]);
            if j < all.len() - 1 {
                assert(all[j] == without(front, last.0)[j]);
            }
        }
    }
}

/// No object in the value, at any depth, has a key twice.
pub open spec fn keys_distinct(v: Json) -> bool
    decreases v,
{
    match v {
        Json::Arr(a) => forall|i: int| 0 <= i < a.len() ==> keys_distinct(#[trigger] a[i]),
        Json::Obj(m) => distinct_keys(m) && forall|i: int|
            0 <= i < m.len() ==> keys_distinct((#[trigger] m[i]).1),
        _ => true,
    }
}

/// What is kept of the members is one of them.
pub proof fn lemma_last_of_each_members(m: Seq<(Seq<char>, Json)>, i: int)
    requires
        0 <= i < last_of_each(m).len(),
    ensures
        exists|j: int| 0 <= j < m.len() && m[j] == last_of_each(m)[i],
    decreases m.len(),
{
    let front = last_of_each(m.drop_last());
    let all = last_of_each(m);
    let last = m.last();
    lemma_without(front, last.0, last.0);
    if i == all.len() - 1 {
        assert(m[m.len() - 1] == all[i]);
    } else {
        assert(all[i] == without(front, last.0)[i]);
        let k = choose|k: int| 0 <= k < front.len() && front[k] == without(front, last.0)[i];
        lemma_last_of_each_members(m.drop_last(), k);
        let j = choose|j: int| 0 <= j < m.drop_last().len() && m.drop_last()[j] == front[k];
        assert(m[j] == all[i]);
    }
}

/// A member put behind the others keeps the keys distinct.
pub proof fn lemma_with_member(m: Seq<(Seq<char>, Json)>, key: Seq<char>, v: Json)
    requires
        distinct_keys(m),
    ensures
        distinct_keys(with_member(m, key, v)),
{
    lemma_without(m, key, key);
    let all = with_member(m, key, v);
    assert forall|i: int, j: int| 0 <= i < j < all.len() implies (#[trigger] all[i]).0 != (
    #[trigger] all[j]).0 by {
        assert(all[i] == without(m, key)[i]);
        if j < all.len() - 1 {
            assert(all[j] == without(m, key)[j]);
        }
    }
}

/// Nothing is taken out for a key that no member has.
pub proof fn lemma_without_absent(m: Seq<(Seq<char>, Json)>, key: Seq<char>)
    requires
        forall|i: int| 0 <= i < m.len() ==> (#[trigger] m[i]).0 != key,
    ensures
        without(m, key) == m,
    decreases m.len(),
{
    if m.len() > 0 {
        let front = m.drop_last();
        assert forall|i: int| 0 <= i < front.len() implies (#[trigger] front[i]).0 != key by {
            assert(m[i].0 != key);
        }
        lemma_without_absent(front, key);
        assert(front.push(m.last()) =~= m);
    }
}

/// Where no key stands twice, one member is taken out.
pub proof fn lemma_without_at(m: Seq<(Seq<char>, Json)>, at: int)
    requires
        distinct_keys(m),
        0 <= at < m.len(),
    ensures
        without(m, m[at].0) == m.remove(at),
    decreases m.len(),
{
    let key = m[at].0;
    let front = m.drop_last();
    if at == m.len() - 1 {
        assert forall|i: int| 0 <= i < front.len() implies (#[trigger] front[i]).0 != key by {
            assert(m[i].0 != m[at].0);
        }
        lemma_without_absent(front, key);
        assert(m.remove(at) =~= front);
    } else {
        assert(m[at].0 != m[m.len() - 1].0);
        assert forall|i: int, j: int| 0 <= i < j < front.len() implies (#[trigger] front[i]).0 != (
        #[trigger] front[j]).0 by {
            assert(m[i].0 != m[j].0);
        }
        lemma_without_at(front, at);
        assert(m.remove(at) =~= front.remove(at).push(m.last()));
    }
}

/// The integer that a value is, if it is one that a `usize` holds.
pub open spec fn usize_of(v: Json) -> Option<usize> {
    match v {
        Json::Num(n) => match n.integer() {
            Some(k) => if k <= usize::MAX {
                Some(k as usize)
            } else {
                None
            },
            None => None,
        },
        _ => None,
    }
}

/// Where a key goes among members that are in the order of their keys.
pub open spec fn slot(m: Seq<(Seq<char>, Json)>, key: Seq<char>) -> int
    decreases m.len(),
{
    if m.len() == 0 || crate::text::precedes(m.last().0, key) {
        m.len() as int
    } else {
        slot(m.drop_last(), key)
    }
}

/// The members in the order of their keys.
pub open spec fn by_key(m: Seq<(Seq<char>, Json)>) -> Seq<(Seq<char>, Json)>
    decreases m.len(),
{
    if m.len() == 0 {
        m
    } else {
        let front = by_key(m.drop_last());
        front.insert(slot(front, m.last().0), m.last())
    }
}

/// The keys go up.
pub open spec fn ascending(m: Seq<(Seq<char>, Json)>) -> bool {
    forall|i: int, j: int|
        0 <= i < j < m.len() ==> crate::text::precedes((#[trigger] m[i]).0, (#[trigger] m[j]).0)
}

/// What goes before a key stands before its slot, and nothing there goes after it.
pub proof fn lemma_slot(m: Seq<(Seq<char>, Json)>, key: Seq<char>)
    ensures
        0 <= slot(m, key) <= m.len(),
        slot(m, key) > 0 ==> crate::text::precedes(m[slot(m, key) - 1].0, key),
        forall|i: int|
            slot(m, key) <= i < m.len() ==> !crate::text::precedes((#[trigger] m[i]).0, key),
    decreases m.len(),
{
    if m.len() > 0 && !crate::text::precedes(m.last().0, key) {
        let front = m.drop_last();
        lemma_slot(front, key);
        assert forall|i: int| slot(m, key) <= i < m.len() implies !crate::text::precedes(
            (#[trigger] m[i]).0,
            key,
        ) by {
            if i < front.len() {
                assert(front[i] == m[i]);
            }
        }
    }
}

/// Listing members by key keeps them, and adds none.
pub proof fn lemma_by_key_members(m: Seq<(Seq<char>, Json)>, p: (Seq<char>, Json))
    ensures
        by_key(m).len() == m.len(),
        by_key(m).contains(p) == m.contains(p),
    decreases m.len(),
{
    if m.len() > 0 {
        let last = m.last();
        let front = by_key(m.drop_last());
        let at = slot(front, last.0);
        let all = by_key(m);
        lemma_by_key_members(m.drop_last(), p);
        lemma_slot(front, last.0);
        if m.contains(p) {
            let i = choose|i: int| 0 <= i < m.len() && m[i] == p;
            if i < m.len() - 1 {
                assert(m.drop_last()[i] == p);
                let k = choose|k: int| 0 <= k < front.len() && front[k] == p;
                if k < at {
                    assert(all[k] == p);
                } else {
                    assert(all[k + 1] == p);
                }
            } else {
                assert(all[at] == p);
            }
        }
        if all.contains(p) {
            let k = choose|k: int| 0 <= k < all.len() && all[k] == p;
            if k == at {
                assert(m[m.len() - 1] == p);
            } else {
                if k < at {
                    assert(front[k] == p);
                } else {
                    assert(front[k - 1] == p);
                }
                let i = choose|i: int|
                    0 <= i < m.drop_last().len() && m.drop_last()[i] == p;
                assert(m[i] == p);
            }
        }
    }
}

/// What is found under a key is a member, and of distinct keys every member is
/// found.
pub proof fn lemma_lookup_member(m: Seq<(Seq<char>, Json)>, key: Seq<char>, v: Json)
    ensures
        lookup(m, key) == Some(v) ==> m.contains((key, v)),
        distinct_keys(m) && m.contains((key, v)) ==> lookup(m, key) == Some(v),
    decreases m.len(),
{
    if m.len() > 0 {
        let rest = m.drop_first();
        lemma_lookup_member(rest, key, v);
        if m[0].0 == key {
            assert(m.contains(m[0]));
            if distinct_keys(m) && m.contains((key, v)) {
                let i = choose|i: int| 0 <= i < m.len() && m[i] == (key, v);
                if i > 0 {
                    assert(m[0].0 != m[i].0);
                }
            }
        } else {
            if rest.contains((key, v)) {
                let i = choose|i: int| 0 <= i < rest.len() && rest[i] == (key, v);
                assert(m[i + 1] == (key, v));
            }
            if distinct_keys(m) {
                assert forall|i: int, j: int| 0 <= i < j < rest.len() implies (
                #[trigger] rest[i]).0 != (#[trigger] rest[j]).0 by {
                    assert(m[i + 1].0 != m[j + 1].0);
                }
                if m.contains((key, v)) {
                    let i = choose|i: int| 0 <= i < m.len() && m[i] == (key, v);
                    assert(rest[i - 1] == (key, v));
                }
            }
        }
    }
}

proof fn lemma_by_key_ascends(m: Seq<(Seq<char>, Json)>)
    requires
        distinct_keys(m),
    ensures
        ascending(by_key(m)),
    decreases m.len(),
{
    if m.len() > 0 {
        let last = m.last();
        let front = by_key(m.drop_last());
        let at = slot(front, last.0);
        let all = by_key(m);
        assert forall|i: int, j: int| 0 <= i < j < m.drop_last().len() implies (
        #[trigger] m.drop_last()[i]).0 != (#[trigger] m.drop_last()[j]).0 by {
            assert(m[i].0 != m[j].0);
        }
        lemma_by_key_ascends(m.drop_last());
        lemma_slot(front, last.0);
        assert forall|k: int| 0 <= k < front.len() implies if k < at {
            crate::text::precedes((#[trigger] front[k]).0, last.0)
        } else {
            crate::text::precedes(last.0, front[k].0)
        } by {
            lemma_by_key_members(m.drop_last(), front[k]);
            assert(front.contains(front[k]));
            let i = choose|i: int|
                0 <= i < m.drop_last().len() && m.drop_last()[i] == front[k];
            assert(m[i].0 != m[m.len() - 1].0);
            if k < at - 1 {
                crate::text::the_order_carries_on(front[k].0, front[at - 1].0, last.0);
            } else if k >= at {
                crate::text::texts_are_ordered(front[k].0, last.0);
            }
        }
        assert forall|i: int, j: int| 0 <= i < j < all.len() implies crate::text::precedes(
            (#[trigger] all[i]).0,
            (#[trigger] all[j]).0,
        ) by {
            if i == at {
                assert(all[j] == front[j - 1]);
            } else if j == at {
                assert(all[i] == front[i]);
            } else {
                let x = if i < at {
                    i
                } else {
                    i - 1
                };
                let y = if j < at {
                    j
                } else {
                    j - 1
                };
                assert(all[i] == front[x]);
                assert(all[j] == front[y]);
            }
        }
    }
}

/// Members that are listed by key are the same members, in the order of their keys,
/// none of them twice.
pub proof fn members_are_listed_by_key(m: Seq<(Seq<char>, Json)>, key: Seq<char>)
    requires
        distinct_keys(m),
    ensures
        ascending(by_key(m)),
        distinct_keys(by_key(m)),
        by_key(m).len() == m.len(),
        lookup(by_key(m), key) == lookup(m, key),
{
    let all = by_key(m);
    lemma_by_key_ascends(m);
    assert forall|i: int, j: int| 0 <= i < j < all.len() implies (#[trigger] all[i]).0 != (
    #[trigger] all[j]).0 by {
        crate::text::texts_are_ordered(all[i].0, all[j].0);
    }
    match (lookup(all, key), lookup(m, key)) {
        (Some(v), _) => {
            lemma_lookup_member(all, key, v);
            lemma_by_key_members(m, (key, v));
            lemma_lookup_member(m, key, v);
        },
        (None, Some(v)) => {
            lemma_lookup_member(m, key, v);
            lemma_by_key_members(m, (key, v));
            lemma_lookup_member(all, key, v);
        },
        _ => {
            lemma_by_key_members(m, (key, Json::Null));
        },
    }
}

/// Numbers are the same if they are equal as numbers: the two zeros are.
pub open spec fn same_number(a: Number, b: Number) -> bool {
    a == b || (a is Finite && b is Finite && a->mantissa == 0 && b->mantissa == 0)
}

/// Are two values the same? The order of the members of an object is not looked at.
pub open spec fn same(a: Json, b: Json) -> bool
    decreases a,
{
    match (a, b) {
        (Json::Num(x), Json::Num(y)) => same_number(x, y),
        (Json::Arr(x), Json::Arr(y)) => x.len() == y.len() && forall|i: int|
            0 <= i < x.len() ==> same(#[trigger] x[i], y[i]),
        (Json::Obj(x), Json::Obj(y)) => x.len() == y.len() && forall|i: int|
            0 <= i < x.len() ==> (lookup(y, (#[trigger] x[i]).0) matches Some(v) && same(
                x[i].1,
                v,
            )),
        (Json::Arr(_), _) => false,
        (Json::Obj(_), _) => false,
        (Json::Num(_), _) => false,
        _ => a == b,
    }
}

/// The value under a key.
pub open spec fn member(v: Json, key: Seq<char>) -> Option<Json> {
    match v {
        Json::Obj(m) => lookup(m, key),
        _ => None,
    }
}

/// A value that is read has no object with a key twice.
pub proof fn read_keys_are_distinct(s: Seq<u8>, i: int)
    requires
        0 <= i <= s.len(),
    ensures
        value_at(s, i) matches Ok((v, _)) ==> keys_distinct(v),
    decreases s.len() - i, 1int,
{
    if i < s.len() && s[i] == 123 {
        lemma_members_distinct(s, i + 1);
        if let Ok((members, end)) = members_at(s, i + 1) {
            last_member_wins(members, Seq::empty());
            let kept = last_of_each(members);
            assert forall|k: int| 0 <= k < kept.len() implies keys_distinct(
                (#[trigger] kept[k]).1,
            ) by {
                lemma_last_of_each_members(members, k);
            }
        }
    } else if i < s.len() && s[i] == 91 {
        lemma_elements_distinct(s, i + 1);
    }
}

proof fn lemma_elements_distinct(s: Seq<u8>, i: int)
    requires
        0 <= i <= s.len(),
    ensures
        elements_at(s, i) matches Ok((a, _)) ==> forall|k: int|
            0 <= k < a.len() ==> keys_distinct(#[trigger] a[k]),
    decreases s.len() - i, 2int,
{
    lemma_skip_space(s, i);
    value_ends_inside(s, skip_space(s, i));
    read_keys_are_distinct(s, skip_space(s, i));
    if let Ok((v, end)) = value_at(s, skip_space(s, i)) {
        lemma_skip_space(s, end);
        let mark = skip_space(s, end);
        if mark < s.len() && s[mark] == 44 {
            lemma_elements_distinct(s, mark + 1);
        }
    }
}

proof fn lemma_members_distinct(s: Seq<u8>, i: int)
    requires
        0 <= i <= s.len(),
    ensures
        members_at(s, i) matches Ok((m, _)) ==> forall|k: int|
            0 <= k < m.len() ==> keys_distinct((#[trigger] m[k]).1),
    decreases s.len() - i, 2int,
{
    lemma_skip_space(s, i);
    let from = skip_space(s, i);
    if from < s.len() {
        lemma_text_end(s, from + 1);
    }
    if let Ok((key, key_end)) = string_at(s, from) {
        lemma_skip_space(s, key_end);
        let colon = skip_space(s, key_end);
        if colon < s.len() && s[colon] == 58 {
            lemma_skip_space(s, colon + 1);
            let start = skip_space(s, colon + 1);
            value_ends_inside(s, start);
            read_keys_are_distinct(s, start);
            if let Ok((v, end)) = value_at(s, start) {
                lemma_skip_space(s, end);
                let mark = skip_space(s, end);
                if mark < s.len() && s[mark] == 44 {
                    lemma_members_distinct(s, mark + 1);
                }
            }
        }
    }
}

} // verus!
