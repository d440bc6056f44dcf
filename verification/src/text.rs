//! Text helpers: decimal notation, comparison, splitting and trimming, all over
//! the character sequence that a string denotes.
use vstd::prelude::*;
use vstd::utf8::*;

verus! {

/// `String::push` appends one character to the end of the string.
pub assume_specification[ String::push ](s: &mut String, c: char)
    ensures
        final(s)@ == old(s)@.push(c),
;

/// The message that the standard library gives for bytes that are not UTF-8: the
/// `Display` text of the error that `std::str::from_utf8` returns for them.
pub uninterp spec fn utf8_error_text(bytes: Seq<u8>) -> Seq<char>;

/// `std::str::from_utf8`: the bytes as a string slice if they are valid UTF-8,
/// otherwise the error, here as its `Display` text. What that text says of
/// each input is not stated beyond that the bytes determine it.
#[verifier::external_body]
pub(crate) fn utf8_str(bytes: &[u8]) -> (r: Result<&str, String>)
    ensures
        match r {
            Ok(s) => valid_utf8(bytes@) && s@ == decode_utf8(bytes@),
            Err(e) => !valid_utf8(bytes@) && e@ == utf8_error_text(bytes@),
        },
{
    std::str::from_utf8(bytes).map_err(|e| e.to_string())
}

/// The `Debug` text of a string: quoted, with the characters escaped that the
/// standard library escapes.
pub uninterp spec fn debug_text(s: Seq<char>) -> Seq<char>;

/// The `Debug` formatting of a `str`, `{:?}`. Which characters it escapes is not
/// stated.
#[verifier::external_body]
pub(crate) fn debug_str(s: &str) -> (r: String)
    ensures
        r@ == debug_text(s@),
{
    format!("{:?}", s)
}

/// The `Debug` text of `std::path::Path` for a path that is this text.
pub uninterp spec fn path_debug_text(s: Seq<char>) -> Seq<char>;

/// The `Debug` text of `std::path::Path`: the path in quotes, with the escapes that a
/// path needs. It depends on the text alone.
#[verifier::external_body]
pub(crate) fn path_debug_str(s: &str) -> (r: String)
    ensures
        r@ == path_debug_text(s@),
{
    format!("{:?}", std::path::Path::new(s))
}

/// The character of a decimal digit.
pub open spec fn digit_char(d: int) -> char {
    (48 + d) as char
}

/// `n` in decimal notation, without leading zeros.
pub open spec fn decimal(n: nat) -> Seq<char>
    decreases n,
{
    if n < 10 {
        seq![digit_char(n as int)]
    } else {
        decimal(n / 10).push(digit_char((n % 10) as int))
    }
}

/// `n` in decimal notation, with a minus sign where it is negative.
pub open spec fn signed_decimal(n: int) -> Seq<char> {
    if n < 0 {
        "-"@ + decimal((-n) as nat)
    } else {
        decimal(n as nat)
    }
}

/// `n` in decimal notation.
pub fn decimal_string(n: u64) -> (r: String)
    ensures
        r@ == decimal(n as nat),
    decreases n,
{
    let d: u8 = (n % 10) as u8;
    let c: char = (48 + d) as char;
    if n < 10 {
        let mut r = String::new();
        r.push(c);
        assert(r@ == decimal(n as nat));
        r
    } else {
        let mut r = decimal_string(n / 10);
        r.push(c);
        r
    }
}

/// `n` in decimal notation, with a minus sign where it is negative.
pub fn signed_decimal_string(n: i32) -> (r: String)
    ensures
        r@ == signed_decimal(n as int),
{
    if n < 0 {
        let magnitude: u64 = (-(n as i64)) as u64;
        let mut r = "-".to_owned();
        let d = decimal_string(magnitude);
        r.append(d.as_str());
        r
    } else {
        decimal_string(n as u64)
    }
}

/// `usize` in decimal notation.
pub fn usize_string(n: usize) -> (r: String)
    ensures
        r@ == decimal(n as nat),
{
    decimal_string(n as u64)
}

/// The numbers in decimal, separated by a comma and a space.
pub open spec fn comma_list(ns: Seq<usize>) -> Seq<char>
    decreases ns.len(),
{
    if ns.len() == 0 {
        Seq::empty()
    } else if ns.len() == 1 {
        decimal(ns[0] as nat)
    } else {
        comma_list(ns.drop_last()) + ", "@ + decimal(ns.last() as nat)
    }
}

/// The numbers in decimal, in square brackets, separated by a comma and a space.
pub open spec fn bracketed_list(ns: Seq<usize>) -> Seq<char> {
    "["@ + comma_list(ns) + "]"@
}

/// The text of a list of numbers, `[1, 2, 3]`.
pub fn list_string(ns: &Vec<usize>) -> (r: String)
    ensures
        r@ == bracketed_list(ns@),
{
    let mut list = String::new();
    let mut i: usize = 0;
    while i < ns.len()
        invariant
            i <= ns.len(),
            list@ == comma_list(ns@.take(i as int)),
        decreases ns.len() - i,
    {
        let ghost before = ns@.take(i as int);
        let ghost after = ns@.take(i + 1);
        assert(after.drop_last() =~= before);
        assert(after.last() == ns@[i as int]);
        let d = usize_string(ns[i]);
        if i > 0 {
            list.append(", ");
            list.append(d.as_str());
        } else {
            list.append(d.as_str());
            assert(list@ =~= decimal(ns@[0] as nat));
        }
        i += 1;
    }
    assert(ns@.take(ns@.len() as int) =~= ns@);
    let mut r = "[".to_owned();
    r.append(list.as_str());
    r.append("]");
    r
}

/// Do two strings hold the same characters?
pub fn same_text(a: &str, b: &str) -> (r: bool)
    ensures
        r == (a@ == b@),
{
    let x = a.as_bytes();
    let y = b.as_bytes();
    proof {
        encode_utf8_decode_utf8(a@);
        encode_utf8_decode_utf8(b@);
    }
    if x.len() != y.len() {
        return false;
    }
    let mut i: usize = 0;
    while i < x.len()
        invariant
            i <= x.len(),
            x@.len() == y@.len(),
            x@ == encode_utf8(a@),
            y@ == encode_utf8(b@),
            forall|j: int| 0 <= j < i ==> x@[j] == y@[j],
        decreases x.len() - i,
    {
        if x[i] != y[i] {
            return false;
        }
        i += 1;
    }
    assert(x@ =~= y@);
    true
}

/// The characters of a string.
pub fn chars_of(s: &str) -> (r: Vec<char>)
    ensures
        r@ == s@,
{
    let mut r: Vec<char> = Vec::new();
    for c in it: s.chars()
        invariant
            r@ == it.seq().take(it.index()),
            it.seq() == s@,
    {
        r.push(c);
    }
    r
}

/// The characters `from..to` as a string.
pub fn string_of(chars: &Vec<char>, from: usize, to: usize) -> (r: String)
    requires
        from <= to <= chars@.len(),
    ensures
        r@ == chars@.subrange(from as int, to as int),
{
    let mut r = String::new();
    let mut i: usize = from;
    assert(chars@.subrange(from as int, from as int) =~= Seq::<char>::empty());
    while i < to
        invariant
            from <= i <= to <= chars@.len(),
            r@ == chars@.subrange(from as int, i as int),
        decreases to - i,
    {
        r.push(chars[i]);
        i += 1;
        assert(r@ =~= chars@.subrange(from as int, i as int));
    }
    r
}

/// Why a text is no number of type `usize`.
pub ghost enum UsizeFault {
    Empty,
    Digit,
    TooLarge,
}

impl UsizeFault {
    /// What is said of the fault.
    pub open spec fn message(self) -> Seq<char> {
        match self {
            UsizeFault::Empty => "cannot parse integer from empty string"@,
            UsizeFault::Digit => "invalid digit found in string"@,
            UsizeFault::TooLarge => "number too large to fit in target type"@,
        }
    }
}

/// The number that digits stand for behind those that stand for `acc`; the first
/// character that is no digit, or that makes it too large, is the fault.
pub open spec fn usize_from(acc: nat, digits: Seq<char>) -> Result<nat, UsizeFault>
    decreases digits.len(),
{
    if digits.len() == 0 {
        Ok(acc)
    } else if !('0' <= digits[0] <= '9') {
        Err(UsizeFault::Digit)
    } else if 10 * acc + (digits[0] as int - 48) > usize::MAX {
        Err(UsizeFault::TooLarge)
    } else {
        usize_from((10 * acc + (digits[0] as int - 48)) as nat, digits.drop_first())
    }
}

/// The number that a text is: an optional plus sign and at least one digit.
pub open spec fn usize_value(s: Seq<char>) -> Result<nat, UsizeFault> {
    if s.len() == 0 {
        Err(UsizeFault::Empty)
    } else if s[0] == '+' {
        if s.len() == 1 {
            Err(UsizeFault::Digit)
        } else {
            usize_from(0, s.drop_first())
        }
    } else {
        usize_from(0, s)
    }
}

/// Reads a number in decimal notation.
pub fn parse_usize(s: &str) -> (r: Result<usize, String>)
    ensures
        match r {
            Ok(n) => usize_value(s@) == Ok::<nat, UsizeFault>(n as nat),
            Err(e) => usize_value(s@) matches Err(f) && e@ == f.message(),
        },
{
    let chars = chars_of(s);
    if chars.len() == 0 {
        return Err("cannot parse integer from empty string".to_owned());
    }
    let mut i: usize = 0;
    if chars[0] == '+' {
        if chars.len() == 1 {
            return Err("invalid digit found in string".to_owned());
        }
        i = 1;
        assert(s@.drop_first() =~= s@.skip(1));
    } else {
        assert(s@ =~= s@.skip(0));
    }
    let mut n: usize = 0;
    while i < chars.len()
        invariant
            i <= chars@.len(),
            chars@ == s@,
            usize_value(s@) == usize_from(n as nat, s@.skip(i as int)),
        decreases chars@.len() - i,
    {
        let c: char = chars[i];
        assert(s@.skip(i as int).drop_first() =~= s@.skip(i + 1));
        if !('0' <= c && c <= '9') {
            return Err("invalid digit found in string".to_owned());
        }
        let d: usize = (c as u32 - 48) as usize;
        let next: u128 = 10 * (n as u128) + d as u128;
        if next > usize::MAX as u128 {
            return Err("number too large to fit in target type".to_owned());
        }
        n = next as usize;
        i += 1;
    }
    Ok(n)
}

/// Little-endian bytes as a number.
pub open spec fn le_value(b: Seq<u8>) -> nat
    decreases b.len(),
{
    if b.len() == 0 {
        0
    } else {
        b[0] as nat + 256 * le_value(b.drop_first())
    }
}

/// White space, as Unicode has it.
pub open spec fn is_white(c: char) -> bool {
    let n = c as int;
    9 <= n <= 13 || n == 0x20 || n == 0x85 || n == 0xa0 || n == 0x1680 || 0x2000 <= n <= 0x200a || n
        == 0x2028 || n == 0x2029 || n == 0x202f || n == 0x205f || n == 0x3000
}

/// The first position from `i` on that holds no white space.
pub open spec fn skip_white(s: Seq<char>, i: int) -> int
    decreases s.len() - i,
{
    if 0 <= i < s.len() && is_white(s[i]) {
        skip_white(s, i + 1)
    } else {
        i
    }
}

/// The end of the text once white space before `j` is left out.
pub open spec fn white_start(s: Seq<char>, j: int) -> int
    decreases j,
{
    if 0 < j <= s.len() && is_white(s[j - 1]) {
        white_start(s, j - 1)
    } else {
        j
    }
}

/// The text without the white space round it.
pub open spec fn trimmed(s: Seq<char>) -> Seq<char> {
    let from = skip_white(s, 0);
    let to = white_start(s, s.len() as int);
    if from < to {
        s.subrange(from, to)
    } else {
        Seq::empty()
    }
}

/// Is the character white space?
pub fn white(c: char) -> (r: bool)
    ensures
        r == is_white(c),
{
    let n: u32 = c as u32;
    (9 <= n && n <= 13) || n == 0x20 || n == 0x85 || n == 0xa0 || n == 0x1680 || (0x2000 <= n && n
        <= 0x200a) || n == 0x2028 || n == 0x2029 || n == 0x202f || n == 0x205f || n == 0x3000
}

/// Skipping white space goes forward and stays inside.
pub proof fn lemma_skip_white(s: Seq<char>, i: int)
    requires
        0 <= i <= s.len(),
    ensures
        i <= skip_white(s, i) <= s.len(),
    decreases s.len() - i,
{
    if i < s.len() && is_white(s[i]) {
        lemma_skip_white(s, i + 1);
    }
}

/// The first position from `i` on that holds no white space.
pub fn after_white(s: &Vec<char>, i: usize) -> (r: usize)
    requires
        i <= s@.len(),
    ensures
        i <= r <= s@.len(),
        r == skip_white(s@, i as int),
{
    let mut r: usize = i;
    while r < s.len() && white(s[r])
        invariant
            i <= r <= s@.len(),
            skip_white(s@, i as int) == skip_white(s@, r as int),
        decreases s@.len() - r,
    {
        r += 1;
    }
    r
}

/// The text without the white space round it.
pub fn trim(s: &Vec<char>) -> (r: String)
    ensures
        r@ == trimmed(s@),
{
    let from: usize = after_white(s, 0);
    let mut to: usize = s.len();
    while to > 0 && white(s[to - 1])
        invariant
            to <= s@.len(),
            white_start(s@, s@.len() as int) == white_start(s@, to as int),
        decreases to,
    {
        to -= 1;
    }
    if from < to {
        string_of(s, from, to)
    } else {
        String::new()
    }
}

/// The parts between commas.
pub open spec fn comma_parts(s: Seq<char>) -> Seq<Seq<char>>
    decreases s.len(),
{
    if s.len() == 0 {
        seq![Seq::empty()]
    } else {
        let front = comma_parts(s.drop_last());
        if s.last() == ',' {
            front.push(Seq::empty())
        } else {
            front.drop_last().push(front.last().push(s.last()))
        }
    }
}

/// Does a text come before another: by the first characters that differ, or as the
/// shorter of two that agree as far as it goes?
pub open spec fn precedes(a: Seq<char>, b: Seq<char>) -> bool
    decreases a.len(),
{
    if b.len() == 0 {
        false
    } else if a.len() == 0 {
        true
    } else if a[0] == b[0] {
        precedes(a.drop_first(), b.drop_first())
    } else {
        a[0] < b[0]
    }
}

/// Of two texts one comes before the other, unless they are the same.
pub proof fn texts_are_ordered(a: Seq<char>, b: Seq<char>)
    ensures
        a == b ==> !precedes(a, b),
        a != b ==> precedes(a, b) != precedes(b, a),
    decreases a.len(),
{
    if a.len() == 0 || b.len() == 0 {
        if a.len() == b.len() {
            assert(a =~= b);
        }
    } else if a[0] == b[0] {
        texts_are_ordered(a.drop_first(), b.drop_first());
        if a.drop_first() == b.drop_first() {
            assert(a =~= seq![a[0]] + a.drop_first());
            assert(b =~= seq![b[0]] + b.drop_first());
        }
    }
}

/// What comes before a text comes before all that follow it.
pub proof fn the_order_carries_on(a: Seq<char>, b: Seq<char>, c: Seq<char>)
    requires
        precedes(a, b),
        precedes(b, c),
    ensures
        precedes(a, c),
    decreases a.len(),
{
    if a.len() > 0 && a[0] == b[0] && b[0] == c[0] {
        the_order_carries_on(a.drop_first(), b.drop_first(), c.drop_first());
    }
}

/// Does a text come before another?
pub fn text_precedes(a: &str, b: &str) -> (r: bool)
    ensures
        r == precedes(a@, b@),
{
    let x = chars_of(a);
    let y = chars_of(b);
    let mut i: usize = 0;
    proof {
        assert(x@.skip(0) =~= x@);
        assert(y@.skip(0) =~= y@);
    }
    while i < x.len() && i < y.len()
        invariant
            i <= x@.len(),
            i <= y@.len(),
            x@ == a@,
            y@ == b@,
            precedes(a@, b@) == precedes(x@.skip(i as int), y@.skip(i as int)),
        decreases x@.len() - i,
    {
        if x[i] != y[i] {
            return x[i] < y[i];
        }
        proof {
            assert(x@.skip(i as int).drop_first() =~= x@.skip(i + 1));
            assert(y@.skip(i as int).drop_first() =~= y@.skip(i + 1));
        }
        i += 1;
    }
    i < y.len()
}

/// The text of a string, if there is one.
pub open spec fn optional(s: Option<String>) -> Option<Seq<char>> {
    match s {
        Some(t) => Some(t@),
        None => None,
    }
}

/// The text of a string slice, if there is one.
pub open spec fn optional_slice(s: Option<&str>) -> Option<Seq<char>> {
    match s {
        Some(t) => Some(t@),
        None => None,
    }
}

/// The texts that strings hold.
pub open spec fn texts(v: Seq<String>) -> Seq<Seq<char>> {
    Seq::new(v.len(), |i: int| v[i]@)
}

/// There is always a part.
pub proof fn lemma_comma_parts(s: Seq<char>)
    ensures
        comma_parts(s).len() > 0,
    decreases s.len(),
{
    if s.len() > 0 {
        lemma_comma_parts(s.drop_last());
    }
}

/// The parts between commas, each without the white space round it.
pub fn trimmed_parts(s: &Vec<char>) -> (r: Vec<String>)
    ensures
        texts(r@) == comma_parts(s@).map_values(|p: Seq<char>| trimmed(p)),
{
    let mut done: Vec<String> = Vec::new();
    let mut part: Vec<char> = Vec::new();
    let mut i: usize = 0;
    proof {
        let t = s@.take(0);
        assert(t.len() == 0);
        assert(comma_parts(t).drop_last() =~= Seq::<Seq<char>>::empty());
        assert(texts(done@) =~= comma_parts(t).drop_last().map_values(
            |p: Seq<char>| trimmed(p),
        ));
    }
    while i < s.len()
        invariant
            i <= s@.len(),
            part@ == comma_parts(s@.take(i as int)).last(),
            texts(done@) == comma_parts(s@.take(i as int)).drop_last().map_values(
                |p: Seq<char>| trimmed(p),
            ),
        decreases s@.len() - i,
    {
        let c: char = s[i];
        let ghost now = comma_parts(s@.take(i as int));
        let ghost next = comma_parts(s@.take(i + 1));
        proof {
            lemma_comma_parts(s@.take(i as int));
        }
        assert(s@.take(i + 1).drop_last() =~= s@.take(i as int));
        if c == ',' {
            let ghost had = texts(done@);
            done.push(trim(&part));
            proof {
                assert(next.drop_last() =~= now);
                assert(texts(done@) =~= had.push(trimmed(part@)));
                assert(now =~= now.drop_last().push(now.last()));
                assert(texts(done@) =~= next.drop_last().map_values(
                    |p: Seq<char>| trimmed(p),
                ));
            }
            part = Vec::new();
        } else {
            part.push(c);
            assert(next.drop_last() =~= now.drop_last());
        }
        i += 1;
    }
    proof {
        assert(s@.take(s@.len() as int) =~= s@);
    }
    let ghost had = texts(done@);
    let ghost all = comma_parts(s@);
    done.push(trim(&part));
    proof {
        lemma_comma_parts(s@);
        assert(all =~= all.drop_last().push(all.last()));
        assert(texts(done@) =~= had.push(trimmed(all.last())));
        assert(texts(done@) =~= all.map_values(|p: Seq<char>| trimmed(p)));
    }
    done
}

/// Does `prefix` begin the text?
pub open spec fn begins_with(s: Seq<char>, prefix: Seq<char>) -> bool {
    prefix.len() <= s.len() && s.take(prefix.len() as int) == prefix
}

/// Does `word` stand at `i`?
pub open spec fn stands_at(s: Seq<char>, i: int, word: Seq<char>) -> bool {
    i + word.len() <= s.len() && s.subrange(i, i + word.len()) == word
}

/// Does `word` stand at `i`?
pub fn word_stands_at(s: &Vec<char>, i: usize, word: &Vec<char>) -> (r: bool)
    requires
        i <= s@.len(),
    ensures
        r == stands_at(s@, i as int, word@),
{
    if s.len() - i < word.len() {
        return false;
    }
    let ghost part = s@.subrange(i as int, i + word@.len());
    let mut j: usize = 0;
    while j < word.len()
        invariant
            j <= word@.len(),
            i + word.len() <= s.len(),
            part == s@.subrange(i as int, i + word@.len()),
            forall|k: int| 0 <= k < j ==> part[k] == word@[k],
        decreases word@.len() - j,
    {
        if s[i + j] != word[j] {
            assert(part[j as int] != word@[j as int]);
            return false;
        }
        j += 1;
    }
    assert(part =~= word@);
    true
}

/// Does `prefix` begin the text?
pub fn text_begins_with(s: &str, prefix: &str) -> (r: bool)
    ensures
        r == begins_with(s@, prefix@),
{
    let r = word_stands_at(&chars_of(s), 0, &chars_of(prefix));
    assert(prefix@.len() <= s@.len() ==> s@.subrange(0, prefix@.len() as int) =~= s@.take(
        prefix@.len() as int,
    ));
    r
}

/// A path below another: `name` itself where it is absolute or `base` is empty,
/// otherwise the two with one slash between them.
pub open spec fn path_join(base: Seq<char>, name: Seq<char>) -> Seq<char> {
    if (name.len() > 0 && name[0] == '/') || base.len() == 0 {
        name
    } else if base.last() == '/' {
        base + name
    } else {
        base + "/"@ + name
    }
}

/// A path below another.
pub fn join_path(base: &str, name: &str) -> (r: String)
    ensures
        r@ == path_join(base@, name@),
{
    let b = chars_of(base);
    let n = chars_of(name);
    if (n.len() > 0 && n[0] == '/') || b.len() == 0 {
        return name.to_owned();
    }
    let mut r = base.to_owned();
    if b[b.len() - 1] != '/' {
        r.append("/");
    }
    r.append(name);
    r
}

/// Equal texts with the same beginning go on alike.
pub proof fn lemma_same_behind(head: Seq<char>, x: Seq<char>, y: Seq<char>)
    requires
        head + x == head + y,
    ensures
        x == y,
{
    let h = head.len() as int;
    assert((head + x).skip(h) =~= x);
    assert((head + y).skip(h) =~= y);
}

/// Decimal notation has one digit for each decimal place, the lowest last: a digit
/// behind a number multiplies it by ten.
pub proof fn a_digit_behind_multiplies_by_ten(n: nat, d: nat)
    requires
        d < 10,
    ensures
        decimal(d).len() == 1,
        decimal(d)[0] as int == '0' as int + d,
        n > 0 ==> decimal(10 * n + d) == decimal(n) + decimal(d),
{
    if n > 0 {
        let m = 10 * n + d;
        assert(m / 10 == n);
        assert(m % 10 == d);
        assert(decimal(m) =~= decimal(n) + decimal(d));
    }
}

/// Every character of decimal notation is a digit.
proof fn lemma_decimal_digits(n: nat)
    ensures
        decimal(n).len() > 0,
        forall|i: int| 0 <= i < decimal(n).len() ==> '0' <= #[trigger] decimal(n)[i] <= '9',
    decreases n,
{
    if n >= 10 {
        lemma_decimal_digits(n / 10);
    }
}

/// The number that digits stand for, the highest first.
pub open spec fn digits_number(s: Seq<char>) -> nat
    decreases s.len(),
{
    if s.len() == 0 {
        0
    } else {
        (10 * digits_number(s.drop_last()) + (s.last() as int - '0' as int)) as nat
    }
}

/// Decimal notation is read back as the number.
pub proof fn numerals_are_read_back(n: nat)
    ensures
        digits_number(decimal(n)) == n,
        forall|i: int| 0 <= i < decimal(n).len() ==> '0' <= #[trigger] decimal(n)[i] <= '9',
        n > 0 ==> decimal(n)[0] != '0',
        decimal(n).len() > 0,
    decreases n,
{
    lemma_decimal_digits(n);
    if n < 10 {
        assert(decimal(n).drop_last() =~= Seq::<char>::empty());
        assert(digits_number(Seq::<char>::empty()) == 0);
        assert(decimal(n).last() == digit_char(n as int));
        assert(digit_char(n as int) as int == 48 + n);
    } else {
        numerals_are_read_back(n / 10);
        assert(decimal(n).last() == digit_char((n % 10) as int));
        assert(digit_char((n % 10) as int) as int == 48 + n % 10);
        assert(decimal(n).drop_last() =~= decimal(n / 10));
        assert(decimal(n)[0] == decimal(n / 10)[0]);
    }
}

/// A number in decimal notation ends where the digits do: followed by something else,
/// it is given by the text.
pub proof fn numerals_end_where_digits_do(n: nat, x: Seq<char>, m: nat, y: Seq<char>)
    requires
        decimal(n) + x == decimal(m) + y,
        x.len() > 0 ==> !('0' <= x[0] <= '9'),
        y.len() > 0 ==> !('0' <= y[0] <= '9'),
    ensures
        n == m,
        x == y,
{
    numerals_are_read_back(n);
    numerals_are_read_back(m);
    let a = decimal(n);
    let b = decimal(m);
    let s = a + x;
    let t = b + y;
    if a.len() < b.len() {
        assert(t[a.len() as int] == b[a.len() as int]);
        assert(x.len() > 0);
        assert(s[a.len() as int] == x[0]);
    }
    if b.len() < a.len() {
        assert(s[b.len() as int] == a[b.len() as int]);
        assert(y.len() > 0);
        assert(t[b.len() as int] == y[0]);
    }
    assert(a =~= s.take(a.len() as int));
    assert(b =~= t.take(b.len() as int));
    lemma_same_behind(a, x, y);
}

/// A negative number is written as its opposite behind a minus sign.
pub proof fn signs_stand_before_the_digits(n: nat)
    ensures
        signed_decimal(n as int) == decimal(n),
        n > 0 ==> signed_decimal(-(n as int)) == seq!['-'] + decimal(n),
{
    reveal_strlit("-");
    if n > 0 {
        assert(signed_decimal(-(n as int)) =~= seq!['-'] + decimal(n));
    }
}

/// The bytes of a number in little-endian order are its digits to the base 256.
pub proof fn bytes_are_the_digits_of_their_value(b: Seq<u8>, i: int)
    requires
        0 <= i < b.len(),
    ensures
        (le_value(b) / crate::math::pow(256, i as nat)) % 256 == b[i],
        le_value(b) < crate::math::pow(256, b.len()),
    decreases b.len(),
{
    lemma_le_bound(b);
    let rest = b.drop_first();
    let low = b[0] as nat;
    let high = le_value(rest);
    let v = le_value(b);
    vstd::arithmetic::div_mod::lemma_fundamental_div_mod_converse(
        v as int,
        256,
        high as int,
        low as int,
    );
    if i == 0 {
        assert(crate::math::pow(256, 0) == 1);
        assert(v / 1 == v);
    } else {
        bytes_are_the_digits_of_their_value(rest, i - 1);
        let p = crate::math::pow(256, (i - 1) as nat);
        crate::math::lemma_pow_positive(256, (i - 1) as nat);
        assert(crate::math::pow(256, i as nat) == 256 * p);
        vstd::arithmetic::div_mod::lemma_div_denominator(v as int, 256, p as int);
        assert(v / (256 * p) == (v / 256) / p);
    }
}

proof fn lemma_le_bound(b: Seq<u8>)
    ensures
        le_value(b) < crate::math::pow(256, b.len()),
    decreases b.len(),
{
    if b.len() == 0 {
        assert(crate::math::pow(256, 0) == 1);
    } else {
        lemma_le_bound(b.drop_first());
        assert(crate::math::pow(256, b.len()) == 256 * crate::math::pow(
            256,
            (b.len() - 1) as nat,
        ));
    }
}

proof fn lemma_usize_from_push(acc: nat, s: Seq<char>, c: char)
    ensures
        usize_from(acc, s.push(c)) == (match usize_from(acc, s) {
            Err(f) => Err(f),
            Ok(n) => if !('0' <= c <= '9') {
                Err(UsizeFault::Digit)
            } else if 10 * n + (c as int - '0' as int) > usize::MAX {
                Err(UsizeFault::TooLarge)
            } else {
                Ok((10 * n + (c as int - '0' as int)) as nat)
            },
        }),
    decreases s.len(),
{
    let t = s.push(c);
    reveal_with_fuel(usize_from, 2);
    if s.len() == 0 {
        assert(t.drop_first() =~= Seq::<char>::empty());
        assert(t[0] == c);
    } else {
        assert(t[0] == s[0]);
        assert(t.drop_first() =~= s.drop_first().push(c));
        lemma_usize_from_push(
            (10 * acc + (s[0] as int - 48)) as nat,
            s.drop_first(),
            c,
        );
    }
}

/// A number is read digit by digit: one more digit makes ten times as much and the
/// digit, unless that is too large or it is no digit. A plus sign before it changes
/// nothing, and without a digit there is no number.
pub proof fn numbers_are_read_digit_by_digit(s: Seq<char>, c: char)
    ensures
        usize_value(Seq::empty()) == Err::<nat, UsizeFault>(UsizeFault::Empty),
        usize_value(seq!['+']) == Err::<nat, UsizeFault>(UsizeFault::Digit),
        s.len() == 0 ==> usize_value(s.push(c)) == (if '0' <= c <= '9' {
            Ok::<nat, UsizeFault>((c as int - '0' as int) as nat)
        } else {
            Err(UsizeFault::Digit)
        }),
        s.len() > 0 && s[0] != '+' ==> usize_value(s.push(c)) == (match usize_value(s) {
            Err(f) => Err(f),
            Ok(n) => if !('0' <= c <= '9') {
                Err(UsizeFault::Digit)
            } else if 10 * n + (c as int - '0' as int) > usize::MAX {
                Err(UsizeFault::TooLarge)
            } else {
                Ok((10 * n + (c as int - '0' as int)) as nat)
            },
        }),
        s.len() > 0 && s[0] != '+' ==> usize_value(seq!['+'] + s) == usize_value(s),
{
    let t = s.push(c);
    lemma_usize_from_push(0, s, c);
    if s.len() == 0 {
        assert(t.drop_first() =~= Seq::<char>::empty());
        assert(t[0] == c);
        assert(s =~= Seq::<char>::empty());
        assert(usize_from(0, s) == Ok::<nat, UsizeFault>(0));
        if c == '+' {
            assert(t =~= seq!['+']);
        }
    } else {
        assert(t[0] == s[0]);
        assert((seq!['+'] + s).drop_first() =~= s);
        assert((seq!['+'] + s)[0] == '+');
    }
}

/// The decimal notation of a number that fits is read as the number.
pub proof fn decimal_notation_is_read_back(n: nat)
    requires
        n <= usize::MAX,
    ensures
        usize_value(decimal(n)) == Ok::<nat, UsizeFault>(n),
    decreases n,
{
    numerals_are_read_back(n);
    let s = decimal(n);
    assert('0' <= s[0] <= '9');
    if n < 10 {
        numbers_are_read_digit_by_digit(Seq::empty(), s[0]);
        assert(s =~= Seq::<char>::empty().push(s[0]));
    } else {
        decimal_notation_is_read_back(n / 10);
        numerals_are_read_back(n / 10);
        assert('0' <= decimal(n / 10)[0] <= '9');
        numbers_are_read_digit_by_digit(decimal(n / 10), digit_char((n % 10) as int));
    }
}

/// The text without white space round it is what is left of it once white space is
/// taken off both ends, and no more can be taken off.
pub proof fn trimming_takes_off_white_space_only(s: Seq<char>) -> (at: (int, int))
    ensures
        0 <= at.0 <= at.1 <= s.len(),
        trimmed(s) == s.subrange(at.0, at.1),
        forall|i: int| 0 <= i < at.0 ==> is_white(#[trigger] s[i]),
        forall|i: int| at.1 <= i < s.len() ==> is_white(#[trigger] s[i]),
        at.0 < at.1 ==> !is_white(s[at.0]) && !is_white(s[at.1 - 1]),
{
    let from = skip_white(s, 0);
    let to = white_start(s, s.len() as int);
    lemma_skip_white_run(s, 0);
    lemma_white_start_run(s, s.len() as int);
    if from < to {
        (from, to)
    } else {
        assert(s.subrange(from, from) =~= Seq::<char>::empty());
        (from, from)
    }
}

proof fn lemma_skip_white_run(s: Seq<char>, i: int)
    requires
        0 <= i <= s.len(),
    ensures
        i <= skip_white(s, i) <= s.len(),
        forall|k: int| i <= k < skip_white(s, i) ==> is_white(#[trigger] s[k]),
        skip_white(s, i) < s.len() ==> !is_white(s[skip_white(s, i)]),
    decreases s.len() - i,
{
    if i < s.len() && is_white(s[i]) {
        lemma_skip_white_run(s, i + 1);
    }
}

proof fn lemma_white_start_run(s: Seq<char>, j: int)
    requires
        0 <= j <= s.len(),
    ensures
        0 <= white_start(s, j) <= j,
        forall|k: int| white_start(s, j) <= k < j ==> is_white(#[trigger] s[k]),
        white_start(s, j) > 0 ==> !is_white(s[white_start(s, j) - 1]),
    decreases j,
{
    if j > 0 && is_white(s[j - 1]) {
        lemma_white_start_run(s, j - 1);
    }
}

/// White space is that of Unicode: the controls from tab to carriage return, and the
/// spaces and separators of the standard.
pub proof fn white_space_is_that_of_unicode(c: char)
    ensures
        is_white(c) <==> set![
            '\t' as int, '\n' as int, 0xbint, 0xcint, '\r' as int, ' ' as int, 0x85int, 0xa0int,
            0x1680int, 0x2000int, 0x2001int, 0x2002int, 0x2003int, 0x2004int, 0x2005int, 0x2006int,
            0x2007int, 0x2008int, 0x2009int, 0x200aint, 0x2028int, 0x2029int, 0x202fint, 0x205fint,
            0x3000int
        ].contains(c as int),
{
}

/// Parts with a comma between them.
pub open spec fn rejoined(parts: Seq<Seq<char>>) -> Seq<char>
    decreases parts.len(),
{
    if parts.len() == 0 {
        Seq::empty()
    } else if parts.len() == 1 {
        parts[0]
    } else {
        rejoined(parts.drop_last()) + seq![','] + parts.last()
    }
}

/// The parts between commas hold no comma, and with commas between them they are the
/// text.
pub proof fn parts_are_what_stands_between_commas(s: Seq<char>)
    ensures
        comma_parts(s).len() > 0,
        rejoined(comma_parts(s)) == s,
        forall|i: int, k: int|
            0 <= i < comma_parts(s).len() && 0 <= k < comma_parts(s)[i].len() ==> #[trigger]
            comma_parts(s)[i][k] != ',',
    decreases s.len(),
{
    let parts = comma_parts(s);
    if s.len() == 0 {
        assert(rejoined(parts) =~= s);
    } else {
        let had = comma_parts(s.drop_last());
        parts_are_what_stands_between_commas(s.drop_last());
        if s.last() == ',' {
            assert(parts.drop_last() =~= had);
            assert(parts.len() >= 2);
            assert(rejoined(parts) =~= s.drop_last() + seq![','] + Seq::<char>::empty());
            assert(rejoined(parts) =~= s);
        } else {
            let grown = had.last().push(s.last());
            assert(parts.drop_last() =~= had.drop_last());
            assert(parts.last() == grown);
            if had.len() == 1 {
                assert(rejoined(parts) == grown);
                assert(grown =~= s);
            } else {
                assert(rejoined(parts) =~= rejoined(had).push(s.last()));
                assert(rejoined(parts) =~= s);
            }
        }
        assert forall|i: int, k: int|
            0 <= i < parts.len() && 0 <= k < parts[i].len() implies #[trigger] parts[i][k]
            != ',' by {
            if s.last() == ',' {
                if i < had.len() {
                    assert(parts[i] == had[i]);
                    assert(had[i][k] != ',');
                }
            } else {
                if i < had.len() - 1 {
                    assert(parts[i] == had[i]);
                    assert(had[i][k] != ',');
                } else {
                    let last = had.len() - 1;
                    assert(parts[i] == had[last].push(s.last()));
                    if k < had[last].len() {
                        assert(had[last][k] != ',');
                    }
                }
            }
        }
    }
}

/// A path below another begins with it and ends with the name, one slash between them,
/// whether or not the first ends in one. An absolute name stays what it is, and below
/// nothing a name is itself.
pub proof fn paths_are_joined_by_one_slash(base: Seq<char>, name: Seq<char>)
    ensures
        name.len() > 0 && name[0] == '/' ==> path_join(base, name) == name,
        path_join(Seq::empty(), name) == name,
        base.len() > 0 && base.last() != '/' && !(name.len() > 0 && name[0] == '/') ==> path_join(
            base,
            name,
        ) == base + seq!['/'] + name && path_join(base.push('/'), name) == path_join(base, name),
        base.len() > 0 && base.last() == '/' && !(name.len() > 0 && name[0] == '/') ==> path_join(
            base,
            name,
        ) == base + name,
{
    reveal_strlit("/");
    assert("/"@ =~= seq!['/']);
    assert(base.push('/') + name =~= base + seq!['/'] + name);
}

/// A list of numbers is in brackets, one behind the other, a comma and a space between
/// them.
pub proof fn lists_grow_at_the_end(ns: Seq<usize>, n: usize)
    ensures
        bracketed_list(Seq::empty()) == seq!['[', ']'],
        bracketed_list(seq![n]) == seq!['['] + decimal(n as nat) + seq![']'],
        ns.len() > 0 ==> bracketed_list(ns.push(n)) == bracketed_list(ns).drop_last() + seq![
            ',',
            ' ',
        ] + decimal(n as nat) + seq![']'],
{
    reveal_strlit("[");
    reveal_strlit("]");
    reveal_strlit(", ");
    assert("["@ =~= seq!['[']);
    assert("]"@ =~= seq![']']);
    assert(", "@ =~= seq![',', ' ']);
    assert(bracketed_list(Seq::empty()) =~= seq!['[', ']']);
    assert(bracketed_list(seq![n]) =~= seq!['['] + decimal(n as nat) + seq![']']);
    if ns.len() > 0 {
        let all = ns.push(n);
        assert(all.drop_last() =~= ns);
        assert(comma_list(all) == comma_list(ns) + ", "@ + decimal(n as nat));
        assert(bracketed_list(ns).drop_last() =~= "["@ + comma_list(ns));
        assert(bracketed_list(all) =~= bracketed_list(ns).drop_last() + seq![',', ' '] + decimal(
            n as nat,
        ) + seq![']']);
    }
}

/// Texts are ordered by the first characters that differ, and a text comes before what
/// it begins.
pub proof fn the_first_difference_decides(p: Seq<char>, x: char, a: Seq<char>, y: char, b: Seq<char>)
    ensures
        x != y ==> precedes(p + seq![x] + a, p + seq![y] + b) == ((x as int) < y as int),
        precedes(p, p + seq![x] + a),
        !precedes(p + seq![x] + a, p),
    decreases p.len(),
{
    let s = p + seq![x] + a;
    let t = p + seq![y] + b;
    if p.len() > 0 {
        let q = p.drop_first();
        the_first_difference_decides(q, x, a, y, b);
        assert(s.drop_first() =~= q + seq![x] + a);
        assert(t.drop_first() =~= q + seq![y] + b);
        assert(s[0] == p[0] && t[0] == p[0]);
    } else {
        assert(s[0] == x && t[0] == y);
    }
}

/// Lists of texts are taken one by one, in their order.
pub proof fn texts_are_taken_one_by_one(v: Seq<String>, i: int)
    requires
        0 <= i < v.len(),
    ensures
        texts(v).len() == v.len(),
        texts(v)[i] == v[i]@,
{
}

/// A text that may be missing is the text, where it is not.
pub proof fn texts_may_be_missing(s: String, t: &str)
    ensures
        optional(Some(s)) == Some(s@),
        optional(None) is None,
        optional_slice(Some(t)) == Some(t@),
        optional_slice(None) is None,
{
}

/// A text begins with another if something behind that other makes it.
pub proof fn texts_begin_with_their_beginnings(s: Seq<char>, prefix: Seq<char>, rest: Seq<char>)
    ensures
        begins_with(prefix + rest, prefix),
        begins_with(s, prefix) ==> s == prefix + s.skip(prefix.len() as int),
        stands_at(s + prefix + rest, s.len() as int, prefix),
{
    assert((prefix + rest).take(prefix.len() as int) =~= prefix);
    if begins_with(s, prefix) {
        assert(s =~= s.take(prefix.len() as int) + s.skip(prefix.len() as int));
    }
    let n = s.len() as int;
    assert((s + prefix + rest).subrange(n, n + prefix.len()) =~= prefix);
}

/// What is said of a text that is no number.
pub proof fn faults_of_numbers_are_told()
    ensures
        UsizeFault::Empty.message() == "cannot parse integer from empty string"@,
        UsizeFault::Digit.message() == "invalid digit found in string"@,
        UsizeFault::TooLarge.message() == "number too large to fit in target type"@,
{
}

} // verus!
