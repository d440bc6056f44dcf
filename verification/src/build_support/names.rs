//! The kernel names that a source file declares.
use crate::text::{after_white, chars_of, string_of, word_stands_at};
use vstd::prelude::*;

verus! {

/// What stands before the name of a kernel in its declaration.
pub open spec fn marker() -> Seq<char> {
    "extern \"C\" __global__ void "@
}

/// The first position from `i` on at which `word` stands.
pub open spec fn find(s: Seq<char>, i: int, word: Seq<char>) -> Option<int>
    decreases s.len() + 1 - i,
{
    if i > s.len() {
        None
    } else if crate::text::stands_at(s, i, word) {
        Some(i)
    } else {
        find(s, i + 1, word)
    }
}

/// A letter, a digit or an underscore.
pub open spec fn is_word(c: char) -> bool {
    '0' <= c <= '9' || 'A' <= c <= 'Z' || 'a' <= c <= 'z' || c == '_'
}

/// The first position from `i` on that holds no character of a word.
pub open spec fn word_end(s: Seq<char>, i: int) -> int
    decreases s.len() - i,
{
    if 0 <= i < s.len() && is_word(s[i]) {
        word_end(s, i + 1)
    } else {
        i
    }
}

/// Behind the parenthesis that closes the `depth` open ones, from `i` on.
pub open spec fn close(s: Seq<char>, i: int, depth: nat) -> Option<int>
    decreases s.len() - i,
{
    if !(0 <= i < s.len()) {
        None
    } else if s[i] == '(' {
        close(s, i + 1, depth + 1)
    } else if s[i] == ')' {
        if depth == 1 {
            Some(i + 1)
        } else {
            close(s, i + 1, (depth - 1) as nat)
        }
    } else {
        close(s, i + 1, depth)
    }
}

/// Is the word an attribute? Those are the implementation's names, which begin
/// with two underscores.
pub open spec fn is_attribute(word: Seq<char>) -> bool {
    crate::text::begins_with(word, "__"@)
}

/// Where the name of a declaration begins and ends, attributes with their
/// arguments left out: the place itself, twice, where an attribute has no
/// arguments or they are not closed.
pub open spec fn declared(s: Seq<char>, i: int) -> (int, int)
    decreases s.len() - i,
    when 0 <= i <= s.len()
{
    let end = word_end(s, i);
    if !is_attribute(s.subrange(i, end)) {
        (i, end)
    } else if end >= s.len() || s[end] != '(' {
        (i, i)
    } else {
        match close(s, end + 1, 1) {
            None => (i, i),
            Some(behind) => {
                proof {
                    lemma_word_end(s, i);
                    lemma_close(s, end + 1, 1);
                    crate::text::lemma_skip_white(s, behind);
                }
                declared(s, crate::text::skip_white(s, behind))
            },
        }
    }
}

/// The names declared from `i` on, in their order.
pub open spec fn names_from(s: Seq<char>, i: int) -> Seq<Seq<char>>
    decreases s.len() - i,
    when 0 <= i <= s.len()
{
    match find(s, i, marker()) {
        None => Seq::empty(),
        Some(at) => {
            proof {
                lemma_find(s, i, marker());
                lemma_marker();
                lemma_declared(s, at + marker().len());
            }
            let (from, to) = declared(s, at + marker().len());
            seq![s.subrange(from, to)] + names_from(s, to)
        },
    }
}

/// The names that a source declares.
pub open spec fn kernel_names(s: Seq<char>) -> Seq<Seq<char>> {
    names_from(s, 0)
}

/// What stands before a name is not empty.
pub proof fn lemma_marker()
    ensures
        marker().len() == 27,
{
    reveal_strlit("extern \"C\" __global__ void ");
}

/// A word that is found stands there.
pub proof fn lemma_find(s: Seq<char>, i: int, word: Seq<char>)
    ensures
        find(s, i, word) matches Some(at) ==> i <= at && at + word.len() <= s.len(),
    decreases s.len() + 1 - i,
{
    if i <= s.len() && !crate::text::stands_at(s, i, word) {
        lemma_find(s, i + 1, word);
    }
}

/// A word goes forward and stays inside.
pub proof fn lemma_word_end(s: Seq<char>, i: int)
    requires
        0 <= i <= s.len(),
    ensures
        i <= word_end(s, i) <= s.len(),
        forall|j: int| i <= j < word_end(s, i) ==> is_word(#[trigger] s[j]),
    decreases s.len() - i,
{
    if i < s.len() && is_word(s[i]) {
        lemma_word_end(s, i + 1);
    }
}

/// A closing parenthesis is further on.
pub proof fn lemma_close(s: Seq<char>, i: int, depth: nat)
    requires
        0 <= i,
    ensures
        close(s, i, depth) matches Some(behind) ==> i < behind <= s.len(),
    decreases s.len() - i,
{
    if i < s.len() {
        if s[i] == '(' {
            lemma_close(s, i + 1, depth + 1);
        } else if s[i] == ')' {
            if depth != 1 {
                lemma_close(s, i + 1, (depth - 1) as nat);
            }
        } else {
            lemma_close(s, i + 1, depth);
        }
    }
}

/// A declared name is further on, made of the characters of a word, and no
/// attribute.
pub proof fn lemma_declared(s: Seq<char>, i: int)
    requires
        0 <= i <= s.len(),
    ensures
        ({
            let (from, to) = declared(s, i);
            &&& i <= from <= to <= s.len()
            &&& forall|j: int| from <= j < to ==> is_word(#[trigger] s[j])
            &&& !is_attribute(s.subrange(from, to))
        }),
    decreases s.len() - i,
{
    let end = word_end(s, i);
    lemma_word_end(s, i);
    reveal_strlit("__");
    if is_attribute(s.subrange(i, end)) {
        if end < s.len() && s[end] == '(' {
            lemma_close(s, end + 1, 1);
            if let Some(behind) = close(s, end + 1, 1) {
                crate::text::lemma_skip_white(s, behind);
                lemma_declared(s, crate::text::skip_white(s, behind));
            }
        }
    }
}

/// No attribute is taken for a kernel: every name is made of letters, digits and
/// underscores and does not begin with two underscores.
pub proof fn names_are_no_attributes(s: Seq<char>, i: int, k: int)
    requires
        0 <= i <= s.len(),
        0 <= k < names_from(s, i).len(),
    ensures
        !is_attribute(names_from(s, i)[k]),
        forall|j: int|
            0 <= j < names_from(s, i)[k].len() ==> is_word(#[trigger] names_from(s, i)[k][j]),
    decreases s.len() - i,
{
    lemma_find(s, i, marker());
    lemma_marker();
    let at = find(s, i, marker())->0;
    lemma_declared(s, at + marker().len());
    let (from, to) = declared(s, at + marker().len());
    if k > 0 {
        names_are_no_attributes(s, to, k - 1);
        assert(names_from(s, i)[k] == names_from(s, to)[k - 1]);
    } else {
        assert(names_from(s, i)[0] == s.subrange(from, to));
    }
}

/// Two places with the same text from there on.
pub open spec fn same_text_from(a: Seq<char>, i: int, b: Seq<char>, j: int) -> bool {
    &&& 0 <= i <= a.len()
    &&& 0 <= j <= b.len()
    &&& a.skip(i) == b.skip(j)
}

/// The same text further on, and the same character.
proof fn lemma_same(a: Seq<char>, i: int, b: Seq<char>, j: int, d: int)
    requires
        same_text_from(a, i, b, j),
        0 <= d <= a.len() - i,
    ensures
        a.len() - i == b.len() - j,
        same_text_from(a, i + d, b, j + d),
        d < a.len() - i ==> a[i + d] == b[j + d],
{
    assert(a.skip(i).len() == b.skip(j).len());
    assert(a.skip(i + d) =~= a.skip(i).skip(d));
    assert(b.skip(j + d) =~= b.skip(j).skip(d));
    if d < a.len() - i {
        assert(a.skip(i)[d] == b.skip(j)[d]);
    }
}

proof fn lemma_same_word_end(a: Seq<char>, i: int, b: Seq<char>, j: int)
    requires
        same_text_from(a, i, b, j),
    ensures
        word_end(a, i) - i == word_end(b, j) - j,
    decreases a.len() - i,
{
    lemma_same(a, i, b, j, 0);
    if i < a.len() && is_word(a[i]) {
        lemma_same(a, i, b, j, 1);
        lemma_same_word_end(a, i + 1, b, j + 1);
    }
}

proof fn lemma_same_close(a: Seq<char>, i: int, b: Seq<char>, j: int, depth: nat)
    requires
        same_text_from(a, i, b, j),
    ensures
        match (close(a, i, depth), close(b, j, depth)) {
            (Some(p), Some(q)) => p - i == q - j,
            (None, None) => true,
            _ => false,
        },
    decreases a.len() - i,
{
    lemma_same(a, i, b, j, 0);
    if i < a.len() {
        lemma_same(a, i, b, j, 1);
        let next = if a[i] == '(' {
            depth + 1
        } else if a[i] == ')' {
            (depth - 1) as nat
        } else {
            depth
        };
        lemma_same_close(a, i + 1, b, j + 1, next);
    }
}

proof fn lemma_same_white(a: Seq<char>, i: int, b: Seq<char>, j: int)
    requires
        same_text_from(a, i, b, j),
    ensures
        crate::text::skip_white(a, i) - i == crate::text::skip_white(b, j) - j,
    decreases a.len() - i,
{
    lemma_same(a, i, b, j, 0);
    if i < a.len() && crate::text::is_white(a[i]) {
        lemma_same(a, i, b, j, 1);
        lemma_same_white(a, i + 1, b, j + 1);
    }
}

proof fn lemma_same_part(a: Seq<char>, i: int, b: Seq<char>, j: int, d: int)
    requires
        same_text_from(a, i, b, j),
        0 <= d <= a.len() - i,
    ensures
        a.subrange(i, i + d) == b.subrange(j, j + d),
{
    lemma_same(a, i, b, j, 0);
    assert(a.subrange(i, i + d) =~= a.skip(i).take(d));
    assert(b.subrange(j, j + d) =~= b.skip(j).take(d));
}

proof fn lemma_same_find(a: Seq<char>, i: int, b: Seq<char>, j: int, word: Seq<char>)
    requires
        same_text_from(a, i, b, j),
        word.len() > 0,
    ensures
        match (find(a, i, word), find(b, j, word)) {
            (Some(p), Some(q)) => p - i == q - j,
            (None, None) => true,
            _ => false,
        },
    decreases a.len() - i,
{
    lemma_same(a, i, b, j, 0);
    if word.len() <= a.len() - i {
        lemma_same_part(a, i, b, j, word.len() as int);
    }
    if i < a.len() {
        lemma_same(a, i, b, j, 1);
        lemma_same_find(a, i + 1, b, j + 1, word);
    } else {
        assert(find(a, i + 1, word) is None);
        assert(find(b, j + 1, word) is None);
    }
}

proof fn lemma_same_declared(a: Seq<char>, i: int, b: Seq<char>, j: int)
    requires
        same_text_from(a, i, b, j),
    ensures
        declared(a, i).0 - i == declared(b, j).0 - j,
        declared(a, i).1 - i == declared(b, j).1 - j,
    decreases a.len() - i,
{
    let end = word_end(a, i);
    let d = end - i;
    lemma_word_end(a, i);
    lemma_same(a, i, b, j, 0);
    lemma_same_word_end(a, i, b, j);
    lemma_same_part(a, i, b, j, d);
    if is_attribute(a.subrange(i, end)) {
        lemma_same(a, i, b, j, d);
        if end < a.len() && a[end] == '(' {
            lemma_same(a, end, b, j + d, 1);
            lemma_same_close(a, end + 1, b, j + d + 1, 1);
            lemma_close(a, end + 1, 1);
            if let Some(behind) = close(a, end + 1, 1) {
                let e = behind - i;
                lemma_same(a, i, b, j, e);
                lemma_same_white(a, behind, b, j + e);
                crate::text::lemma_skip_white(a, behind);
                let next = crate::text::skip_white(a, behind);
                lemma_same(a, behind, b, j + e, next - behind);
                lemma_same_declared(a, next, b, j + (next - i));
            }
        }
    }
}

/// The names from a place on are those of the text from there on.
pub proof fn names_depend_on_what_follows(a: Seq<char>, i: int, b: Seq<char>, j: int)
    requires
        same_text_from(a, i, b, j),
    ensures
        names_from(a, i) == names_from(b, j),
    decreases a.len() - i,
{
    lemma_marker();
    lemma_same_find(a, i, b, j, marker());
    lemma_find(a, i, marker());
    if let Some(at) = find(a, i, marker()) {
        let start = at + marker().len();
        let other = j + (start - i);
        lemma_same(a, i, b, j, start - i);
        lemma_same_declared(a, start, b, other);
        lemma_declared(a, start);
        let (from, to) = declared(a, start);
        lemma_same(a, start, b, other, from - start);
        lemma_same_part(a, from, b, other + (from - start), to - from);
        lemma_same(a, start, b, other, to - start);
        names_depend_on_what_follows(a, to, b, other + (to - start));
    }
}

/// A declaration with an attribute before its name.
pub open spec fn attributed(
    attribute: Seq<char>,
    arguments: Seq<char>,
    gap: Seq<char>,
    rest: Seq<char>,
) -> Seq<char> {
    marker() + attribute + seq!['('] + arguments + seq![')'] + gap + rest
}

/// An attribute hides no kernel: a declaration with one before its name, with
/// arguments in parentheses that are closed and any white space behind them,
/// gives the names that it gives without.
pub proof fn an_attribute_hides_no_kernel(
    attribute: Seq<char>,
    arguments: Seq<char>,
    gap: Seq<char>,
    rest: Seq<char>,
)
    requires
        is_attribute(attribute),
        forall|k: int| 0 <= k < attribute.len() ==> is_word(#[trigger] attribute[k]),
        close(arguments.push(')'), 0, 1) == Some(arguments.len() as int + 1),
        forall|k: int| 0 <= k < gap.len() ==> crate::text::is_white(#[trigger] gap[k]),
        rest.len() > 0 ==> !crate::text::is_white(rest[0]),
    ensures
        kernel_names(attributed(attribute, arguments, gap, rest)) == kernel_names(marker() + rest),
{
    let s = attributed(attribute, arguments, gap, rest);
    let plain = marker() + rest;
    lemma_marker();
    let start = marker().len() as int;
    assert(s.subrange(0, start) =~= marker());
    assert(plain.subrange(0, start) =~= marker());
    assert(find(s, 0, marker()) == Some(0int));
    assert(find(plain, 0, marker()) == Some(0int));
    // The attribute, up to its parenthesis.
    let end = start + attribute.len();
    assert(s[end] == '(');
    lemma_word_run(s, start, end);
    assert(s.subrange(start, end) =~= attribute);
    // Its arguments, up to the closing one.
    let open = end + 1;
    let behind = open + arguments.len() + 1;
    lemma_close_prefix(s, open, arguments.push(')'), 0, 1);
    // The white space behind them.
    let next = behind + gap.len();
    lemma_white_run(s, behind, next);
    assert(s.skip(next) =~= rest);
    assert(plain.skip(start) =~= rest);
    lemma_same_declared(s, next, plain, start);
    lemma_declared(s, next);
    let (from, to) = declared(s, next);
    assert(declared(s, start) == (from, to));
    lemma_same(s, next, plain, start, from - next);
    lemma_same_part(s, from, plain, start + (from - next), to - from);
    lemma_same(s, next, plain, start, to - next);
    names_depend_on_what_follows(s, to, plain, start + (to - next));
}

proof fn lemma_word_run(s: Seq<char>, i: int, end: int)
    requires
        0 <= i <= end < s.len(),
        forall|k: int| i <= k < end ==> is_word(#[trigger] s[k]),
        !is_word(s[end]),
    ensures
        word_end(s, i) == end,
    decreases end - i,
{
    if i < end {
        lemma_word_run(s, i + 1, end);
    }
}

proof fn lemma_white_run(s: Seq<char>, i: int, end: int)
    requires
        0 <= i <= end <= s.len(),
        forall|k: int| i <= k < end ==> crate::text::is_white(#[trigger] s[k]),
        end < s.len() ==> !crate::text::is_white(s[end]),
    ensures
        crate::text::skip_white(s, i) == end,
    decreases end - i,
{
    if i < end {
        lemma_white_run(s, i + 1, end);
    }
}

/// A parenthesis that is closed in a part of the text is closed in the text.
proof fn lemma_close_prefix(s: Seq<char>, at: int, part: Seq<char>, i: int, depth: nat)
    requires
        0 <= at,
        at + part.len() <= s.len(),
        forall|k: int| 0 <= k < part.len() ==> #[trigger] part[k] == s[at + k],
        0 <= i <= part.len(),
        close(part, i, depth) is Some,
    ensures
        close(s, at + i, depth) == Some(at + close(part, i, depth)->0),
    decreases part.len() - i,
{
    if i < part.len() {
        assert(part[i] == s[at + i]);
        if part[i] == '(' {
            lemma_close_prefix(s, at, part, i + 1, depth + 1);
        } else if part[i] == ')' {
            if depth != 1 {
                lemma_close_prefix(s, at, part, i + 1, (depth - 1) as nat);
            }
        } else {
            lemma_close_prefix(s, at, part, i + 1, depth);
        }
    }
}

/// Does the declaration at `i` end before the text does? Only attributes can make
/// it go on: their arguments must be closed, and something other than white space
/// must stand behind them.
pub open spec fn settled(s: Seq<char>, i: int) -> bool
    decreases s.len() - i,
    when 0 <= i <= s.len()
{
    let end = word_end(s, i);
    is_attribute(s.subrange(i, end)) && end < s.len() && s[end] == '(' ==> match close(
        s,
        end + 1,
        1,
    ) {
        None => false,
        Some(behind) => {
            proof {
                lemma_word_end(s, i);
                lemma_close(s, end + 1, 1);
                crate::text::lemma_skip_white(s, behind);
            }
            let next = crate::text::skip_white(s, behind);
            next < s.len() && settled(s, next)
        },
    }
}

/// Does every declaration from `i` on end before the text does?
pub open spec fn all_settled(s: Seq<char>, i: int) -> bool
    decreases s.len() - i,
    when 0 <= i <= s.len()
{
    match find(s, i, marker()) {
        None => true,
        Some(at) => {
            proof {
                lemma_find(s, i, marker());
                lemma_marker();
                lemma_declared(s, at + marker().len());
            }
            settled(s, at + marker().len()) && all_settled(
                s,
                declared(s, at + marker().len()).1,
            )
        },
    }
}

/// Two sources, one behind the other on a new line.
pub open spec fn stacked(a: Seq<char>, b: Seq<char>) -> Seq<char> {
    a.push('\n') + b
}

proof fn lemma_stacked_word_end(a: Seq<char>, b: Seq<char>, i: int)
    requires
        0 <= i <= a.len(),
    ensures
        word_end(stacked(a, b), i) == word_end(a, i),
    decreases a.len() - i,
{
    let s = stacked(a, b);
    if i < a.len() {
        assert(s[i] == a[i]);
        if is_word(a[i]) {
            lemma_stacked_word_end(a, b, i + 1);
        }
    } else {
        assert(s[i] == '\n');
    }
}

proof fn lemma_stacked_white(a: Seq<char>, b: Seq<char>, i: int)
    requires
        0 <= i <= a.len(),
        crate::text::skip_white(a, i) < a.len(),
    ensures
        crate::text::skip_white(stacked(a, b), i) == crate::text::skip_white(a, i),
    decreases a.len() - i,
{
    let s = stacked(a, b);
    if i < a.len() {
        assert(s[i] == a[i]);
        if crate::text::is_white(a[i]) {
            lemma_stacked_white(a, b, i + 1);
        }
    }
}

proof fn lemma_stacked_declared(a: Seq<char>, b: Seq<char>, i: int)
    requires
        0 <= i <= a.len(),
        settled(a, i),
    ensures
        declared(stacked(a, b), i) == declared(a, i),
    decreases a.len() - i,
{
    let s = stacked(a, b);
    let end = word_end(a, i);
    lemma_word_end(a, i);
    lemma_stacked_word_end(a, b, i);
    assert(s.subrange(i, end) =~= a.subrange(i, end));
    if is_attribute(a.subrange(i, end)) {
        if end < a.len() {
            assert(s[end] == a[end]);
            if a[end] == '(' {
                lemma_close(a, end + 1, 1);
                lemma_close_prefix(s, 0, a, end + 1, 1);
                let behind = close(a, end + 1, 1)->0;
                crate::text::lemma_skip_white(a, behind);
                lemma_stacked_white(a, b, behind);
                lemma_stacked_declared(a, b, crate::text::skip_white(a, behind));
            }
        } else {
            assert(s[end] == '\n');
        }
    }
}

proof fn lemma_stacked_find(a: Seq<char>, b: Seq<char>, i: int)
    requires
        0 <= i <= a.len(),
    ensures
        find(stacked(a, b), i, marker()) == (match find(a, i, marker()) {
            Some(at) => Some(at),
            None => find(stacked(a, b), a.len() as int + 1, marker()),
        }),
    decreases a.len() - i,
{
    let s = stacked(a, b);
    lemma_marker();
    reveal_strlit("extern \"C\" __global__ void ");
    let end = i + marker().len();
    if end <= a.len() {
        assert(s.subrange(i, end) =~= a.subrange(i, end));
    } else if end <= s.len() && s.subrange(i, end) == marker() {
        let at = a.len() - i;
        assert(s.subrange(i, end)[at] == '\n');
        assert(marker()[at] != '\n');
    }
    if i < a.len() {
        lemma_stacked_find(a, b, i + 1);
    } else {
        assert(find(a, i + 1, marker()) is None);
    }
}

proof fn lemma_stacked_names(a: Seq<char>, b: Seq<char>, i: int)
    requires
        0 <= i <= a.len(),
        all_settled(a, i),
    ensures
        names_from(stacked(a, b), i) == names_from(a, i) + kernel_names(b),
    decreases a.len() - i,
{
    let s = stacked(a, b);
    lemma_marker();
    lemma_find(a, i, marker());
    lemma_stacked_find(a, b, i);
    match find(a, i, marker()) {
        Some(at) => {
            let start = at + marker().len();
            lemma_stacked_declared(a, b, start);
            lemma_declared(a, start);
            let (from, to) = declared(a, start);
            assert(s.subrange(from, to) =~= a.subrange(from, to));
            lemma_stacked_names(a, b, to);
            assert(names_from(s, i) =~= names_from(a, i) + kernel_names(b));
        },
        None => {
            let behind = a.len() as int + 1;
            assert(s.skip(behind) =~= b);
            assert(b.skip(0) =~= b);
            names_depend_on_what_follows(s, behind, b, 0);
            assert(names_from(s, i) == names_from(s, behind));
            assert(names_from(a, i) + kernel_names(b) =~= kernel_names(b));
        },
    }
}

/// The names of two sources, one behind the other on a new line, are those of the
/// first and then those of the second, where the first does not end within the
/// attributes of a declaration.
pub proof fn names_of_sources_add_up(a: Seq<char>, b: Seq<char>)
    requires
        all_settled(a, 0),
    ensures
        kernel_names(stacked(a, b)) == kernel_names(a) + kernel_names(b),
{
    lemma_stacked_names(a, b, 0);
}

/// The first position from `i` on at which `word` stands.
fn find_word(s: &Vec<char>, i: usize, word: &Vec<char>) -> (r: Option<usize>)
    requires
        i <= s@.len(),
    ensures
        match r {
            Some(at) => find(s@, i as int, word@) == Some(at as int) && i <= at && at + word@.len()
                <= s@.len(),
            None => find(s@, i as int, word@) is None,
        },
{
    let mut at: usize = i;
    while at < s.len()
        invariant
            i <= at <= s@.len(),
            find(s@, i as int, word@) == find(s@, at as int, word@),
        decreases s@.len() - at,
    {
        if word_stands_at(s, at, word) {
            return Some(at);
        }
        at += 1;
    }
    if word_stands_at(s, at, word) {
        return Some(at);
    }
    assert(find(s@, at + 1, word@) is None);
    None
}

/// The end of the word at `i`.
fn end_of_word(s: &Vec<char>, i: usize) -> (r: usize)
    requires
        i <= s@.len(),
    ensures
        i <= r <= s@.len(),
        r == word_end(s@, i as int),
{
    let mut r: usize = i;
    while r < s.len() && (('0' <= s[r] && s[r] <= '9') || ('A' <= s[r] && s[r] <= 'Z') || ('a'
        <= s[r] && s[r] <= 'z') || s[r] == '_')
        invariant
            i <= r <= s@.len(),
            word_end(s@, i as int) == word_end(s@, r as int),
        decreases s@.len() - r,
    {
        r += 1;
    }
    r
}

/// Behind the parenthesis that closes the one before `i`.
fn behind_close(s: &Vec<char>, i: usize) -> (r: Option<usize>)
    requires
        1 <= i <= s@.len(),
    ensures
        match r {
            Some(behind) => close(s@, i as int, 1) == Some(behind as int) && i < behind
                <= s@.len(),
            None => close(s@, i as int, 1) is None,
        },
{
    let mut depth: usize = 1;
    let mut k: usize = i;
    while k < s.len()
        invariant
            1 <= i <= k <= s@.len(),
            1 <= depth <= 1 + k - i,
            close(s@, i as int, 1) == close(s@, k as int, depth as nat),
        decreases s@.len() - k,
    {
        if s[k] == '(' {
            depth += 1;
        } else if s[k] == ')' {
            if depth == 1 {
                return Some(k + 1);
            }
            depth -= 1;
        }
        k += 1;
    }
    None
}

/// Pulls every kernel name out of a source file.
pub fn kernel_names_in(src: &str) -> (r: Vec<String>)
    ensures
        crate::text::texts(r@) == kernel_names(src@),
{
    let s = chars_of(src);
    let mark = chars_of("extern \"C\" __global__ void ");
    let double = chars_of("__");
    let mut out: Vec<String> = Vec::new();
    let mut base: usize = 0;
    proof {
        lemma_marker();
        assert(crate::text::texts(out@) + names_from(src@, 0) =~= names_from(src@, 0));
    }
    loop
        invariant
            s@ == src@,
            mark@ == marker(),
            mark@.len() == 27,
            double@ == "__"@,
            base <= s@.len(),
            kernel_names(src@) == crate::text::texts(out@) + names_from(src@, base as int),
        decreases s@.len() - base,
    {
        let at: usize = match find_word(&s, base, &mark) {
            None => {
                assert(crate::text::texts(out@) + Seq::<Seq<char>>::empty()
                    =~= crate::text::texts(out@));
                return out;
            },
            Some(at) => at,
        };
        let ghost start = at + mark@.len();
        assert(s.len() <= usize::MAX);
        let mut after: usize = at + mark.len();
        let mut to: usize = after;
        proof {
            lemma_declared(s@, start);
        }
        loop
            invariant_except_break
                s@ == src@,
                double@ == "__"@,
                start <= after <= s@.len(),
                to == after,
                declared(s@, start) == declared(s@, after as int),
            ensures
                start <= after <= to <= s@.len(),
                declared(s@, start) == (after as int, to as int),
            decreases s@.len() - after,
        {
            let end: usize = end_of_word(&s, after);
            assert(crate::text::begins_with(s@.subrange(after as int, end as int), "__"@) == (
            crate::text::stands_at(s@, after as int, "__"@) && end >= after + 2)) by {
                reveal_strlit("__");
                let word = s@.subrange(after as int, end as int);
                if end >= after + 2 {
                    assert(word.take(2) =~= s@.subrange(after as int, after + 2));
                }
            }
            if end - after < 2 || !word_stands_at(&s, after, &double) {
                to = end;
                break;
            }
            if end >= s.len() || s[end] != '(' {
                break;
            }
            match behind_close(&s, end + 1) {
                None => {
                    break;
                },
                Some(behind) => {
                    after = after_white(&s, behind);
                    to = after;
                },
            }
        }
        let ghost had = crate::text::texts(out@);
        out.push(string_of(&s, after, to));
        proof {
            let name = s@.subrange(after as int, to as int);
            assert(crate::text::texts(out@) =~= had.push(name));
            assert(had.push(name) + names_from(src@, to as int) =~= had + (seq![name] + names_from(
                src@,
                to as int,
            )));
        }
        base = to;
    }
}

/// A declaration gives its name: behind the words that make a kernel stands its name,
/// up to the first character that is not of a word.
pub proof fn a_declaration_gives_its_name(name: Seq<char>, rest: Seq<char>)
    requires
        forall|k: int| 0 <= k < name.len() ==> is_word(#[trigger] name[k]),
        !(name.len() >= 2 && name[0] == '_' && name[1] == '_'),
        rest.len() > 0,
        !is_word(rest[0]),
    ensures
        kernel_names("extern \"C\" __global__ void "@ + name + rest) == seq![name] + kernel_names(
            rest,
        ),
{
    lemma_marker();
    reveal_strlit("__");
    let s = marker() + name + rest;
    let start = marker().len() as int;
    let end = start + name.len();
    assert(s.subrange(0, start) =~= marker());
    assert(find(s, 0, marker()) == Some(0int));
    assert(s[end] == rest[0]);
    assert forall|k: int| start <= k < end implies is_word(#[trigger] s[k]) by {
        assert(s[k] == name[k - start]);
    }
    lemma_word_run(s, start, end);
    assert(s.subrange(start, end) =~= name);
    assert(!is_attribute(name)) by {
        if name.len() >= 2 {
            assert(name.take(2)[0] == name[0] && name.take(2)[1] == name[1]);
        }
    }
    assert(s.skip(end) =~= rest);
    assert(rest.skip(0) =~= rest);
    names_depend_on_what_follows(s, end, rest, 0);
}

/// A text without the words that make a kernel declares none.
pub proof fn no_declaration_gives_no_name(s: Seq<char>)
    requires
        forall|i: int|
            0 <= i && i + 27 <= s.len() ==> #[trigger] s.subrange(i, i + 27)
                != "extern \"C\" __global__ void "@,
    ensures
        kernel_names(s) == Seq::<Seq<char>>::empty(),
{
    lemma_marker();
    lemma_not_found(s, 0);
}

proof fn lemma_not_found(s: Seq<char>, i: int)
    requires
        0 <= i,
        forall|k: int|
            0 <= k && k + 27 <= s.len() ==> #[trigger] s.subrange(k, k + 27)
                != "extern \"C\" __global__ void "@,
    ensures
        find(s, i, marker()) is None,
    decreases s.len() + 1 - i,
{
    lemma_marker();
    if i <= s.len() {
        if i + 27 <= s.len() {
            assert(s.subrange(i, i + 27) != marker());
        }
        lemma_not_found(s, i + 1);
    }
}

/// The characters of a word are letters, digits and underscores.
pub proof fn words_are_letters_digits_and_underscores(c: char)
    ensures
        is_word(c) <==> ('a' <= c <= 'z' || 'A' <= c <= 'Z' || '0' <= c <= '9' || c == '_'),
{
}

/// A declaration is found wherever it stands: where none begins before it, the names are
/// its own and those of what follows it.
pub proof fn declarations_are_found_where_they_stand(
    head: Seq<char>,
    name: Seq<char>,
    rest: Seq<char>,
)
    requires
        forall|k: int| 0 <= k < name.len() ==> is_word(#[trigger] name[k]),
        !(name.len() >= 2 && name[0] == '_' && name[1] == '_'),
        rest.len() > 0,
        !is_word(rest[0]),
        ({
            let s = head + ("extern \"C\" __global__ void "@ + name + rest);
            forall|i: int|
                0 <= i < head.len() && i + 27 <= s.len() ==> #[trigger] s.subrange(i, i + 27)
                    != "extern \"C\" __global__ void "@
        }),
    ensures
        kernel_names(head + ("extern \"C\" __global__ void "@ + name + rest)) == seq![name]
            + kernel_names(rest),
{
    lemma_marker();
    let tail = marker() + name + rest;
    let s = head + tail;
    let at = head.len() as int;
    assert(s.subrange(at, at + 27) =~= tail.subrange(0, 27));
    assert(tail.subrange(0, 27) =~= marker());
    lemma_found_at(s, 0, at);
    lemma_found_at(s, at, at);
    assert(s.skip(at) =~= tail);
    assert(tail.skip(0) =~= tail);
    names_depend_on_what_follows(s, at, tail, 0);
    a_declaration_gives_its_name(name, rest);
}

proof fn lemma_found_at(s: Seq<char>, i: int, at: int)
    requires
        0 <= i <= at,
        at + 27 <= s.len(),
        s.subrange(at, at + 27) == marker(),
        forall|k: int|
            i <= k < at && k + 27 <= s.len() ==> #[trigger] s.subrange(k, k + 27) != marker(),
    ensures
        find(s, i, marker()) == Some(at),
    decreases at - i,
{
    lemma_marker();
    if i < at {
        assert(s.subrange(i, i + 27) != marker());
        lemma_found_at(s, i + 1, at);
    }
}

/// Attributes are the words that begin with two underscores.
pub proof fn attributes_begin_with_two_underscores(word: Seq<char>)
    ensures
        is_attribute(word) <==> word.len() >= 2 && word[0] == '_' && word[1] == '_',
{
    reveal_strlit("__");
    if word.len() >= 2 {
        assert(word.take(2)[0] == word[0] && word.take(2)[1] == word[1]);
        if word[0] == '_' && word[1] == '_' {
            assert(word.take(2) =~= "__"@);
        }
    }
}

/// How many more parentheses are opened than closed.
pub open spec fn opened(s: Seq<char>, i: int, j: int) -> int
    decreases j - i,
{
    if j <= i {
        0
    } else {
        opened(s, i, j - 1) + (if s[j - 1] == '(' {
            1int
        } else if s[j - 1] == ')' {
            -1int
        } else {
            0int
        })
    }
}

proof fn lemma_opened(s: Seq<char>, i: int, j: int)
    requires
        i < j,
    ensures
        opened(s, i, j) == opened(s, i, i + 1) + opened(s, i + 1, j),
    decreases j - i,
{
    if j > i + 1 {
        lemma_opened(s, i, j - 1);
    } else {
        assert(opened(s, i + 1, j) == 0);
    }
}

/// The parenthesis that closes the open ones is the first with which as many are closed
/// as are open; where there is none they are not closed.
pub proof fn parentheses_are_matched(s: Seq<char>, i: int, depth: nat)
    requires
        0 <= i <= s.len(),
        depth > 0,
    ensures
        match close(s, i, depth) {
            Some(end) => i < end <= s.len() && depth + opened(s, i, end) == 0 && forall|j: int|
                i <= j < end ==> depth + #[trigger] opened(s, i, j) > 0,
            None => forall|j: int| i <= j <= s.len() ==> depth + #[trigger] opened(s, i, j) > 0,
        },
    decreases s.len() - i,
{
    assert(opened(s, i, i) == 0);
    if i < s.len() {
        assert(opened(s, i, i + 1) == opened(s, i, i) + (if s[i] == '(' {
            1int
        } else if s[i] == ')' {
            -1int
        } else {
            0int
        }));
        let next = depth + opened(s, i, i + 1);
        if next > 0 {
            parentheses_are_matched(s, i + 1, next as nat);
            assert forall|j: int| i < j <= s.len() implies #[trigger] opened(s, i, j) == opened(
                s,
                i,
                i + 1,
            ) + opened(s, i + 1, j) by {
                lemma_opened(s, i, j);
            }
            assert(opened(s, i + 1, i + 1) == 0);
        }
    }
}

} // verus!
