//! JSON texts as they are written, and that reading one gives back the value it was
//! written for, whatever white space and whichever escapes it has.
use crate::json::grammar::Json;
use crate::json::number::Number;
use vstd::prelude::*;
use vstd::utf8::*;

verus! {

/// One character of a string as it is written.
pub ghost enum Piece {
    /// The character itself.
    Plain(char),
    /// A backslash and one byte.
    Short(u8),
    /// A backslash, `u` and four hexadecimal digits.
    Code(u8, u8, u8, u8),
}

/// A value as it is written.
pub ghost enum Written {
    Null,
    Bool(bool),
    /// A literal.
    Num(Seq<u8>),
    Str(Seq<Piece>),
    /// The elements; the white space between the brackets where there is none.
    Arr(Seq<u8>, Seq<Item>),
    /// The members; the white space between the braces where there is none.
    Obj(Seq<u8>, Seq<Member>),
}

/// An element with the white space round it.
pub ghost struct Item {
    pub before: Seq<u8>,
    pub value: Written,
    pub after: Seq<u8>,
}

/// A member with the white space round its key and its value.
pub ghost struct Member {
    pub before: Seq<u8>,
    pub key: Seq<Piece>,
    pub behind_key: Seq<u8>,
    pub before_value: Seq<u8>,
    pub value: Written,
    pub after: Seq<u8>,
}

/// The character that a byte behind a backslash names.
pub open spec fn short_char(b: u8) -> Option<char> {
    if b == 34 || b == 92 || b == 47 {
        Some(b as char)
    } else if b == 98 {
        Some('\u{8}')
    } else if b == 102 {
        Some('\u{c}')
    } else if b == 110 {
        Some('\n')
    } else if b == 114 {
        Some('\r')
    } else if b == 116 {
        Some('\t')
    } else {
        None
    }
}

/// The code that four hexadecimal digits are, if they are that and it is a
/// character's.
pub open spec fn code_of(a: u8, b: u8, c: u8, d: u8) -> Option<nat> {
    match (
        crate::json::grammar::hex_digit(a),
        crate::json::grammar::hex_digit(b),
        crate::json::grammar::hex_digit(c),
        crate::json::grammar::hex_digit(d),
    ) {
        (Some(p), Some(q), Some(r), Some(s)) => {
            let code = 4096 * p + 256 * q + 16 * r + s;
            if crate::json::grammar::is_code_point(code as int) {
                Some(code)
            } else {
                None
            }
        },
        _ => None,
    }
}

impl Piece {
    /// A quote and a backslash do not stand for themselves, and an escape is one
    /// that there is.
    pub open spec fn wf(self) -> bool {
        match self {
            Piece::Plain(c) => c != '"' && c != '\\',
            Piece::Short(b) => short_char(b) is Some,
            Piece::Code(a, b, c, d) => code_of(a, b, c, d) is Some,
        }
    }

    /// The character.
    pub open spec fn character(self) -> char {
        match self {
            Piece::Plain(c) => c,
            Piece::Short(b) => short_char(b)->0,
            Piece::Code(a, b, c, d) => code_of(a, b, c, d)->0 as char,
        }
    }

    /// The bytes.
    pub open spec fn text(self) -> Seq<u8> {
        match self {
            Piece::Plain(c) => encode_scalar(c as u32),
            Piece::Short(b) => seq![92u8, b],
            Piece::Code(a, b, c, d) => seq![92u8, 117u8, a, b, c, d],
        }
    }
}

/// Nothing but white space.
pub open spec fn blank(gap: Seq<u8>) -> bool {
    forall|i: int| 0 <= i < gap.len() ==> crate::json::grammar::is_space(#[trigger] gap[i])
}

/// Nothing but bytes that a number is made of.
pub open spec fn number_bytes(t: Seq<u8>) -> bool {
    forall|i: int| 0 <= i < t.len() ==> crate::json::grammar::is_number_byte(#[trigger] t[i])
}

/// The pieces of a string are those that there are.
pub open spec fn pieces_wf(pieces: Seq<Piece>) -> bool {
    forall|i: int| 0 <= i < pieces.len() ==> (#[trigger] pieces[i]).wf()
}

/// The characters of a string from piece `k` on.
pub open spec fn characters(pieces: Seq<Piece>, k: int) -> Seq<char> {
    Seq::new((pieces.len() - k) as nat, |j: int| pieces[k + j].character())
}

/// The bytes of a string from piece `k` on, with the closing quote.
pub open spec fn pieces_text(pieces: Seq<Piece>, k: int) -> Seq<u8>
    decreases pieces.len() - k,
{
    if 0 <= k < pieces.len() {
        pieces[k].text() + pieces_text(pieces, k + 1)
    } else {
        seq![34u8]
    }
}

/// The bytes of a string, quotes round it.
pub open spec fn string_text(pieces: Seq<Piece>) -> Seq<u8> {
    seq![34u8] + pieces_text(pieces, 0)
}

/// The bytes of a value.
pub open spec fn text(w: Written) -> Seq<u8>
    decreases w, 0int,
{
    match w {
        Written::Null => crate::json::grammar::word_null(),
        Written::Bool(b) => if b {
            crate::json::grammar::word_true()
        } else {
            crate::json::grammar::word_false()
        },
        Written::Num(t) => t,
        Written::Str(pieces) => string_text(pieces),
        Written::Arr(gap, items) => seq![91u8] + (if items.len() == 0 {
            gap + seq![93u8]
        } else {
            items_text(items, 0)
        }),
        Written::Obj(gap, members) => seq![123u8] + (if members.len() == 0 {
            gap + seq![125u8]
        } else {
            members_text(members, 0)
        }),
    }
}

/// The bytes of the elements from `k` on, commas between them, with the closing
/// bracket.
pub open spec fn items_text(items: Seq<Item>, k: int) -> Seq<u8>
    decreases items, items.len() - k,
{
    if 0 <= k < items.len() {
        items[k].before + (text(items[k].value) + (items[k].after + (if k + 1 < items.len() {
            seq![44u8] + items_text(items, k + 1)
        } else {
            seq![93u8]
        })))
    } else {
        Seq::empty()
    }
}

/// The bytes of the members from `k` on, commas between them, with the closing
/// brace.
pub open spec fn members_text(members: Seq<Member>, k: int) -> Seq<u8>
    decreases members, members.len() - k,
{
    if 0 <= k < members.len() {
        let m = members[k];
        m.before + (string_text(m.key) + (m.behind_key + (seq![58u8] + (m.before_value + (text(
            members[k].value,
        ) + (m.after + (if k + 1 < members.len() {
            seq![44u8] + members_text(members, k + 1)
        } else {
            seq![125u8]
        })))))))
    } else {
        Seq::empty()
    }
}

/// The value that is written.
pub open spec fn value(w: Written) -> Json
    decreases w, 0int,
{
    match w {
        Written::Null => Json::Null,
        Written::Bool(b) => Json::Bool(b),
        Written::Num(t) => Json::Num(crate::json::literal::number_of(t)->0),
        Written::Str(pieces) => Json::Str(characters(pieces, 0)),
        Written::Arr(_, items) => Json::Arr(item_values(items, 0)),
        Written::Obj(_, members) => Json::Obj(
            crate::json::grammar::last_of_each(member_values(members, 0)),
        ),
    }
}

/// The values of the elements from `k` on.
pub open spec fn item_values(items: Seq<Item>, k: int) -> Seq<Json>
    decreases items, items.len() - k,
{
    if 0 <= k < items.len() {
        seq![value(items[k].value)] + item_values(items, k + 1)
    } else {
        Seq::empty()
    }
}

/// The members from `k` on, as they are written.
pub open spec fn member_values(members: Seq<Member>, k: int) -> Seq<(Seq<char>, Json)>
    decreases members, members.len() - k,
{
    if 0 <= k < members.len() {
        seq![(characters(members[k].key, 0), value(members[k].value))] + member_values(
            members,
            k + 1,
        )
    } else {
        Seq::empty()
    }
}

/// A value is written as it should be: gaps are white space, literals denote
/// numbers and strings have only the escapes that there are.
pub open spec fn wf(w: Written) -> bool
    decreases w,
{
    match w {
        Written::Null | Written::Bool(_) => true,
        Written::Num(t) => crate::json::literal::number_of(t) is Some && number_bytes(t),
        Written::Str(pieces) => pieces_wf(pieces),
        Written::Arr(gap, items) => blank(gap) && forall|i: int|
            0 <= i < items.len() ==> blank((#[trigger] items[i]).before) && wf(items[i].value)
                && blank(items[i].after),
        Written::Obj(gap, members) => blank(gap) && forall|i: int|
            0 <= i < members.len() ==> blank((#[trigger] members[i]).before) && pieces_wf(
                members[i].key,
            ) && blank(members[i].behind_key) && blank(members[i].before_value) && wf(
                members[i].value,
            ) && blank(members[i].after),
    }
}

/// A text stands at a place inside another.
pub open spec fn stands(s: Seq<u8>, i: int, t: Seq<u8>) -> bool {
    0 <= i && crate::json::grammar::stands_at(s, i, t)
}

/// Nothing at `i` can make a word or a number longer.
pub open spec fn delimited(s: Seq<u8>, i: int) -> bool {
    i < s.len() ==> !crate::json::grammar::is_word(s[i]) && !crate::json::grammar::is_number_byte(
        s[i],
    )
}

proof fn lemma_split(s: Seq<u8>, i: int, a: Seq<u8>, b: Seq<u8>)
    requires
        stands(s, i, a + b),
    ensures
        stands(s, i, a),
        stands(s, i + a.len(), b),
        a.len() > 0 ==> s[i] == a[0],
        b.len() > 0 ==> s[i + a.len()] == b[0],
{
    let t = a + b;
    let part = s.subrange(i, i + t.len());
    assert(s.subrange(i, i + a.len()) =~= part.take(a.len() as int));
    assert(t.take(a.len() as int) =~= a);
    assert(s.subrange(i + a.len(), i + t.len()) =~= part.skip(a.len() as int));
    assert(t.skip(a.len() as int) =~= b);
    if a.len() > 0 {
        assert(part[0] == t[0]);
    }
    if b.len() > 0 {
        assert(part[a.len() as int] == t[a.len() as int]);
    }
}

proof fn lemma_byte(s: Seq<u8>, i: int, t: Seq<u8>, k: int)
    requires
        stands(s, i, t),
        0 <= k < t.len(),
    ensures
        s[i + k] == t[k],
{
    assert(s.subrange(i, i + t.len())[k] == s[i + k]);
}

/// White space is skipped up to what is none.
proof fn lemma_gap(s: Seq<u8>, i: int, gap: Seq<u8>)
    requires
        stands(s, i, gap),
        blank(gap),
        i + gap.len() < s.len() ==> !crate::json::grammar::is_space(s[i + gap.len()]),
    ensures
        crate::json::grammar::skip_space(s, i) == i + gap.len(),
    decreases gap.len(),
{
    if gap.len() > 0 {
        let rest = gap.drop_first();
        assert(gap =~= seq![gap[0]] + rest);
        lemma_split(s, i, seq![gap[0]], rest);
        assert forall|k: int| 0 <= k < rest.len() implies crate::json::grammar::is_space(
            #[trigger] rest[k],
        ) by {
            assert(rest[k] == gap[k + 1]);
        }
        lemma_gap(s, i + 1, rest);
    }
}

/// What follows a gap or its end does not make a word longer.
proof fn lemma_gap_delimits(s: Seq<u8>, i: int, gap: Seq<u8>)
    requires
        stands(s, i, gap),
        blank(gap),
        delimited(s, i + gap.len()),
    ensures
        delimited(s, i),
{
    if gap.len() > 0 {
        lemma_byte(s, i, gap, 0);
        assert(crate::json::grammar::is_space(gap[0]));
    }
}

/// The bytes of a character other than a quote and a backslash are no quote and
/// no backslash.
proof fn lemma_plain_bytes(c: char)
    requires
        c != '"',
        c != '\\',
    ensures
        encode_scalar(c as u32).len() > 0,
        forall|k: int|
            0 <= k < encode_scalar(c as u32).len() ==> (#[trigger] encode_scalar(c as u32)[k]) != 34
                && encode_scalar(c as u32)[k] != 92,
{
    let all = encode_utf8(seq![c]);
    let e = encode_scalar(c as u32);
    assert(seq![c].drop_first() =~= Seq::<char>::empty());
    assert(encode_utf8(Seq::<char>::empty()) =~= Seq::<u8>::empty());
    assert(all =~= e);
    encode_utf8_first_scalar(seq![c]);
    char_is_scalar(c);
    if is_leading_byte_width_1(all[0]) {
        let b = all[0];
        assert((b & 0x7f) as u32 == b as u32) by (bit_vector)
            requires
                b <= 0x7f,
        ;
        assert(b as u32 == c as u32);
    }
}

/// A run of plain bytes may begin one character earlier.
proof fn lemma_plain_piece(s: Seq<u8>, i: int, c: char)
    requires
        c != '"',
        c != '\\',
        stands(s, i, encode_scalar(c as u32)),
        crate::json::grammar::text_at(s, i + encode_scalar(c as u32).len()) is Ok,
    ensures
        crate::json::grammar::text_at(s, i) == crate::json::grammar::text_before(
            seq![c],
            crate::json::grammar::text_at(s, i + encode_scalar(c as u32).len()),
        ),
{
    let e = encode_scalar(c as u32);
    let next = i + e.len();
    lemma_plain_bytes(c);
    lemma_plain_run(s, i, e);
    lemma_byte(s, i, e, 0);
    crate::json::grammar::lemma_plain_end(s, next);
    let end = crate::json::grammar::plain_end(s, next);
    let rest = s.subrange(next, end);
    assert(next < s.len());
    if end == next {
        assert(rest =~= Seq::<u8>::empty());
        assert(valid_utf8(rest));
    }
    assert(valid_utf8(rest));
    let tail = decode_utf8(rest);
    decode_utf8_encode_utf8(rest);
    let chars = seq![c] + tail;
    assert(chars.drop_first() =~= tail);
    let run = s.subrange(i, end);
    assert(run =~= s.subrange(i, next) + rest);
    assert(run == encode_utf8(chars));
    encode_utf8_valid_utf8(chars);
    encode_utf8_decode_utf8(chars);
    if end == next {
        assert(tail =~= Seq::<char>::empty());
        assert(chars =~= seq![c]);
    } else {
        let (behind, to) = crate::json::grammar::text_at(s, end)->Ok_0;
        assert(seq![c] + (tail + behind) =~= chars + behind);
    }
}

/// A run of plain bytes is part of the run that it begins.
proof fn lemma_plain_run(s: Seq<u8>, i: int, e: Seq<u8>)
    requires
        stands(s, i, e),
        forall|k: int| 0 <= k < e.len() ==> (#[trigger] e[k]) != 34 && e[k] != 92,
    ensures
        crate::json::grammar::plain_end(s, i) == crate::json::grammar::plain_end(s, i + e.len()),
    decreases e.len(),
{
    if e.len() > 0 {
        let rest = e.drop_first();
        assert(e =~= seq![e[0]] + rest);
        lemma_split(s, i, seq![e[0]], rest);
        lemma_plain_run(s, i + 1, rest);
    }
}

/// Bytes of ASCII are UTF-8.
pub proof fn lemma_ascii(b: Seq<u8>)
    requires
        forall|k: int| 0 <= k < b.len() ==> #[trigger] b[k] <= 0x7f,
    ensures
        valid_utf8(b),
    decreases b.len(),
{
    if b.len() > 0 {
        let first = b[0];
        assert((first & 0x7f) as u32 == first as u32) by (bit_vector)
            requires
                first <= 0x7f,
        ;
        lemma_ascii(pop_first_scalar(b));
    }
}

/// An escape is read as its character.
proof fn lemma_escape(piece: Piece, s: Seq<u8>, i: int)
    requires
        piece.wf(),
        !(piece is Plain),
        stands(s, i, piece.text()),
    ensures
        s[i] == 92,
        crate::json::grammar::escape_at(s, i + 1) == Ok::<(char, int), crate::json::grammar::Fault>(
            (piece.character(), i + piece.text().len()),
        ),
{
    let t = piece.text();
    lemma_byte(s, i, t, 0);
    lemma_byte(s, i, t, 1);
    if let Piece::Code(a, b, c, d) = piece {
        lemma_byte(s, i, t, 2);
        lemma_byte(s, i, t, 3);
        lemma_byte(s, i, t, 4);
        lemma_byte(s, i, t, 5);
        lemma_ascii(s.subrange(i + 2, i + 6));
    }
}

/// The pieces of a string are read as its characters.
proof fn lemma_pieces(pieces: Seq<Piece>, k: int, s: Seq<u8>, i: int)
    requires
        pieces_wf(pieces),
        0 <= k <= pieces.len(),
        stands(s, i, pieces_text(pieces, k)),
    ensures
        crate::json::grammar::text_at(s, i) == Ok::<(Seq<char>, int), crate::json::grammar::Fault>(
            (characters(pieces, k), i + pieces_text(pieces, k).len()),
        ),
    decreases pieces.len() - k,
{
    if k == pieces.len() {
        lemma_byte(s, i, pieces_text(pieces, k), 0);
        assert(characters(pieces, k) =~= Seq::<char>::empty());
    } else {
        let piece = pieces[k];
        let t = piece.text();
        lemma_split(s, i, t, pieces_text(pieces, k + 1));
        lemma_pieces(pieces, k + 1, s, i + t.len());
        assert(characters(pieces, k) =~= seq![piece.character()] + characters(pieces, k + 1));
        if let Piece::Plain(c) = piece {
            lemma_plain_piece(s, i, c);
        } else {
            lemma_escape(piece, s, i);
        }
    }
}

/// A string is read as its characters.
proof fn lemma_string(pieces: Seq<Piece>, s: Seq<u8>, i: int)
    requires
        pieces_wf(pieces),
        stands(s, i, string_text(pieces)),
    ensures
        s[i] == 34,
        i + 1 < i + string_text(pieces).len() <= s.len(),
        crate::json::grammar::string_at(s, i) == Ok::<
            (Seq<char>, int),
            crate::json::grammar::Fault,
        >((characters(pieces, 0), i + string_text(pieces).len())),
{
    lemma_split(s, i, seq![34u8], pieces_text(pieces, 0));
    lemma_pieces(pieces, 0, s, i + 1);
    crate::json::grammar::lemma_text_end(s, i + 1);
}

/// A number ends where its literal does.
proof fn lemma_number_run(s: Seq<u8>, i: int, t: Seq<u8>)
    requires
        stands(s, i, t),
        number_bytes(t),
        delimited(s, i + t.len()),
    ensures
        crate::json::grammar::number_end(s, i) == i + t.len(),
    decreases t.len(),
{
    if t.len() > 0 {
        let rest = t.drop_first();
        assert(t =~= seq![t[0]] + rest);
        lemma_split(s, i, seq![t[0]], rest);
        assert(crate::json::grammar::is_number_byte(t[0]));
        assert forall|k: int| 0 <= k < rest.len() implies crate::json::grammar::is_number_byte(
            #[trigger] rest[k],
        ) by {
            assert(rest[k] == t[k + 1]);
        }
        lemma_number_run(s, i + 1, rest);
    }
}

/// A value begins with a byte that is no white space and closes nothing.
proof fn lemma_first(w: Written)
    requires
        wf(w),
    ensures
        text(w).len() > 0,
        !crate::json::grammar::is_space(text(w)[0]),
        text(w)[0] != 93,
{
    if let Written::Num(t) = w {
        if t.len() == 0 {
            assert(crate::json::literal::literal(t) is None);
        }
        assert(crate::json::grammar::is_number_byte(t[0]));
    }
}

/// A word that is written is read.
proof fn lemma_word(w: Written, s: Seq<u8>, i: int)
    requires
        w is Null || w is Bool,
        stands(s, i, text(w)),
        delimited(s, i + text(w).len()),
    ensures
        crate::json::grammar::value_at(s, i) == Ok::<(Json, int), crate::json::grammar::Fault>(
            (value(w), i + text(w).len()),
        ),
{
    let t = text(w);
    lemma_byte(s, i, t, 0);
    let yes = crate::json::grammar::word_true();
    let no = crate::json::grammar::word_false();
    if t[0] != yes[0] && i + 4 <= s.len() {
        assert(s.subrange(i, i + 4)[0] != yes[0]);
    }
    if t[0] != no[0] && i + 5 <= s.len() {
        assert(s.subrange(i, i + 5)[0] != no[0]);
    }
    assert(crate::json::grammar::stands_at(s, i, yes) == (t[0] == 116));
    assert(crate::json::grammar::stands_at(s, i, no) == (t[0] == 102));
}

/// An array that is written is read.
proof fn lemma_array(gap: Seq<u8>, items: Seq<Item>, s: Seq<u8>, i: int)
    requires
        wf(Written::Arr(gap, items)),
        stands(s, i, text(Written::Arr(gap, items))),
    ensures
        crate::json::grammar::array_at(s, i) == Ok::<(Json, int), crate::json::grammar::Fault>(
            (value(Written::Arr(gap, items)), i + text(Written::Arr(gap, items)).len()),
        ),
        i < s.len(),
        s[i] == 91,
    decreases items, items.len() + 1,
{
    if items.len() == 0 {
        lemma_split(s, i, seq![91u8], gap + seq![93u8]);
        lemma_split(s, i + 1, gap, seq![93u8]);
        lemma_gap(s, i + 1, gap);
    } else {
        lemma_split(s, i, seq![91u8], items_text(items, 0));
        lemma_items(items, 0, s, i + 1);
    }
}

/// An object that is written is read.
proof fn lemma_object(gap: Seq<u8>, members: Seq<Member>, s: Seq<u8>, i: int)
    requires
        wf(Written::Obj(gap, members)),
        stands(s, i, text(Written::Obj(gap, members))),
    ensures
        crate::json::grammar::object_at(s, i) == Ok::<(Json, int), crate::json::grammar::Fault>(
            (value(Written::Obj(gap, members)), i + text(Written::Obj(gap, members)).len()),
        ),
        i < s.len(),
        s[i] == 123,
    decreases members, members.len() + 1,
{
    if members.len() == 0 {
        lemma_split(s, i, seq![123u8], gap + seq![125u8]);
        lemma_split(s, i + 1, gap, seq![125u8]);
        lemma_gap(s, i + 1, gap);
    } else {
        lemma_split(s, i, seq![123u8], members_text(members, 0));
        lemma_members(members, 0, s, i + 1);
    }
}

/// A value that is written is read.
proof fn lemma_value(w: Written, s: Seq<u8>, i: int)
    requires
        wf(w),
        stands(s, i, text(w)),
        delimited(s, i + text(w).len()),
    ensures
        crate::json::grammar::value_at(s, i) == Ok::<(Json, int), crate::json::grammar::Fault>(
            (value(w), i + text(w).len()),
        ),
    decreases w, 0int,
{
    match w {
        Written::Null | Written::Bool(_) => {
            lemma_word(w, s, i);
        },
        Written::Num(t) => {
            lemma_first(w);
            lemma_byte(s, i, t, 0);
            lemma_number_run(s, i, t);
            assert(crate::json::grammar::is_number_byte(t[0]));
        },
        Written::Str(pieces) => {
            lemma_string(pieces, s, i);
        },
        Written::Arr(gap, items) => {
            lemma_array(gap, items, s, i);
        },
        Written::Obj(gap, members) => {
            lemma_object(gap, members, s, i);
        },
    }
}

/// The elements of an array that are written are read.
proof fn lemma_items(items: Seq<Item>, k: int, s: Seq<u8>, i: int)
    requires
        0 <= k < items.len(),
        forall|j: int|
            0 <= j < items.len() ==> blank((#[trigger] items[j]).before) && wf(items[j].value)
                && blank(items[j].after),
        stands(s, i, items_text(items, k)),
    ensures
        crate::json::grammar::elements_at(s, i) == Ok::<
            (Seq<Json>, int),
            crate::json::grammar::Fault,
        >((item_values(items, k), i + items_text(items, k).len())),
        crate::json::grammar::skip_space(s, i) < s.len(),
        s[crate::json::grammar::skip_space(s, i)] != 93,
    decreases items, items.len() - k,
{
    let item = items[k];
    let t = text(item.value);
    let close = if k + 1 < items.len() {
        seq![44u8] + items_text(items, k + 1)
    } else {
        seq![93u8]
    };
    let from = i + item.before.len();
    let end = from + t.len();
    let mark = end + item.after.len();
    lemma_split(s, i, item.before, t + (item.after + close));
    lemma_split(s, from, t, item.after + close);
    lemma_split(s, end, item.after, close);
    lemma_first(item.value);
    lemma_gap(s, i, item.before);
    lemma_gap(s, end, item.after);
    lemma_gap_delimits(s, end, item.after);
    assert(decreases_to!(items => items[k]));
    assert(decreases_to!(items[k] => items[k].value));
    lemma_value(item.value, s, from);
    if k + 1 < items.len() {
        lemma_split(s, mark, seq![44u8], items_text(items, k + 1));
        lemma_items(items, k + 1, s, mark + 1);
    } else {
        assert(item_values(items, k + 1) =~= Seq::<Json>::empty());
        assert(item_values(items, k) =~= seq![value(item.value)]);
    }
}

/// The members of an object that are written are read.
proof fn lemma_members(members: Seq<Member>, k: int, s: Seq<u8>, i: int)
    requires
        0 <= k < members.len(),
        forall|j: int|
            0 <= j < members.len() ==> blank((#[trigger] members[j]).before) && pieces_wf(
                members[j].key,
            ) && blank(members[j].behind_key) && blank(members[j].before_value) && wf(
                members[j].value,
            ) && blank(members[j].after),
        stands(s, i, members_text(members, k)),
    ensures
        crate::json::grammar::members_at(s, i) == Ok::<
            (Seq<(Seq<char>, Json)>, int),
            crate::json::grammar::Fault,
        >((member_values(members, k), i + members_text(members, k).len())),
        crate::json::grammar::skip_space(s, i) < s.len(),
        s[crate::json::grammar::skip_space(s, i)] == 34,
    decreases members, members.len() - k,
{
    let m = members[k];
    let key = string_text(m.key);
    let t = text(m.value);
    let close = if k + 1 < members.len() {
        seq![44u8] + members_text(members, k + 1)
    } else {
        seq![125u8]
    };
    let start = i + m.before.len();
    let key_end = start + key.len();
    let colon = key_end + m.behind_key.len();
    let from = colon + 1 + m.before_value.len();
    let end = from + t.len();
    let mark = end + m.after.len();
    let tail = m.before_value + (t + (m.after + close));
    lemma_split(s, i, m.before, key + (m.behind_key + (seq![58u8] + tail)));
    lemma_split(s, start, key, m.behind_key + (seq![58u8] + tail));
    lemma_split(s, key_end, m.behind_key, seq![58u8] + tail);
    lemma_split(s, colon, seq![58u8], tail);
    lemma_split(s, colon + 1, m.before_value, t + (m.after + close));
    lemma_split(s, from, t, m.after + close);
    lemma_split(s, end, m.after, close);
    lemma_string(m.key, s, start);
    lemma_gap(s, i, m.before);
    lemma_gap(s, key_end, m.behind_key);
    lemma_first(m.value);
    lemma_gap(s, colon + 1, m.before_value);
    lemma_gap(s, end, m.after);
    lemma_gap_delimits(s, end, m.after);
    assert(decreases_to!(members => members[k]));
    assert(decreases_to!(members[k] => members[k].value));
    lemma_value(m.value, s, from);
    let pair = (characters(m.key, 0), value(m.value));
    if k + 1 < members.len() {
        lemma_split(s, mark, seq![44u8], members_text(members, k + 1));
        lemma_members(members, k + 1, s, mark + 1);
    } else {
        assert(member_values(members, k + 1) =~= Seq::<(Seq<char>, Json)>::empty());
        assert(member_values(members, k) =~= seq![pair]);
    }
}

/// A value that is written as JSON is read back, whatever white space stands
/// between its parts and round it, and however the characters of its strings are
/// escaped. Of members of one key the last is kept, so that an object is read back
/// whole where no key is written twice.
pub proof fn written_values_are_read_back(before: Seq<u8>, w: Written, after: Seq<u8>)
    requires
        blank(before),
        wf(w),
        blank(after),
    ensures
        crate::json::grammar::document(before + text(w) + after) == Ok::<
            Json,
            crate::json::grammar::Fault,
        >(value(w)),
{
    let s = before + text(w) + after;
    let from = before.len() as int;
    let end = from + text(w).len();
    assert(s.subrange(0, from) =~= before);
    assert(s.subrange(from, end) =~= text(w));
    assert(s.subrange(end, s.len() as int) =~= after);
    lemma_first(w);
    lemma_byte(s, from, text(w), 0);
    lemma_gap(s, 0, before);
    lemma_gap(s, end, after);
    lemma_gap_delimits(s, end, after);
    lemma_value(w, s, from);
}

/// The decimal digits of a number.
pub open spec fn numeral(n: nat) -> Seq<u8>
    decreases n,
{
    if n < 10 {
        seq![(48 + n) as u8]
    } else {
        numeral(n / 10).push((48 + n % 10) as u8)
    }
}

/// A literal for a number, whose value is the number exactly: its digits where the
/// exponent is not negative, otherwise digits and a power of ten. An infinite number
/// has a literal that is beyond every finite one.
pub open spec fn numeral_of(n: Number) -> Seq<u8> {
    match n {
        Number::Finite { negative, mantissa, exponent } => sign_text(negative) + (if exponent
            >= 0 {
            numeral(mantissa as nat * crate::math::pow(2, exponent as nat))
        } else {
            numeral(mantissa as nat * crate::math::pow(5, (-exponent) as nat)) + seq![101u8, 45u8]
                + numeral((-exponent) as nat)
        }),
        Number::Infinite { negative } => sign_text(negative) + numeral(1) + seq![101u8] + numeral(
            400,
        ),
    }
}

/// A minus sign, where there is one.
pub open spec fn sign_text(negative: bool) -> Seq<u8> {
    if negative {
        seq![45u8]
    } else {
        Seq::empty()
    }
}

/// One character: an escape for a quote and a backslash, and any other as it is.
pub open spec fn plain_piece(c: char) -> Piece {
    if c == '"' {
        Piece::Short(34)
    } else if c == '\\' {
        Piece::Short(92)
    } else {
        Piece::Plain(c)
    }
}

/// A string with no escape but those it needs.
pub open spec fn plain_pieces(s: Seq<char>) -> Seq<Piece> {
    s.map_values(|c: char| plain_piece(c))
}

/// A value without white space.
pub open spec fn plain(v: Json) -> Written
    decreases v,
{
    match v {
        Json::Null => Written::Null,
        Json::Bool(b) => Written::Bool(b),
        Json::Num(n) => Written::Num(numeral_of(n)),
        Json::Str(s) => Written::Str(plain_pieces(s)),
        Json::Arr(a) => Written::Arr(
            Seq::empty(),
            Seq::new(
                a.len(),
                |i: int|
                    Item {
                        before: Seq::empty(),
                        value: if 0 <= i < a.len() {
                            plain(a[i])
                        } else {
                            Written::Null
                        },
                        after: Seq::empty(),
                    },
            ),
        ),
        Json::Obj(m) => Written::Obj(
            Seq::empty(),
            Seq::new(
                m.len(),
                |i: int|
                    Member {
                        before: Seq::empty(),
                        key: plain_pieces(m[i].0),
                        behind_key: Seq::empty(),
                        before_value: Seq::empty(),
                        value: if 0 <= i < m.len() {
                            plain(m[i].1)
                        } else {
                            Written::Null
                        },
                        after: Seq::empty(),
                    },
            ),
        ),
    }
}

/// Every number in the value, at any depth, is a binary64 number in its one form.
pub open spec fn numbers_wf(v: Json) -> bool
    decreases v,
{
    match v {
        Json::Num(n) => n.wf(),
        Json::Arr(a) => forall|i: int| 0 <= i < a.len() ==> numbers_wf(#[trigger] a[i]),
        Json::Obj(m) => forall|i: int| 0 <= i < m.len() ==> numbers_wf((#[trigger] m[i]).1),
        _ => true,
    }
}

/// A numeral is digits, at least one, and they stand for the number.
proof fn lemma_numeral(n: nat)
    ensures
        numeral(n).len() > 0,
        forall|k: int|
            0 <= k < numeral(n).len() ==> crate::json::literal::is_digit(#[trigger] numeral(n)[k]),
        crate::json::literal::digits_value(numeral(n), 0, numeral(n).len() as int) == n,
    decreases n,
{
    let t = numeral(n);
    if n < 10 {
        assert(crate::json::literal::digits_value(t, 1, 1) == 0);
        assert(crate::math::pow(10, 0) == 1);
        assert((t[0] - 48) as nat * 1 == n);
    } else {
        let front = numeral(n / 10);
        lemma_numeral(n / 10);
        let last = front.len() as int;
        assert(t.len() == last + 1);
        assert forall|k: int| 0 <= k < t.len() implies crate::json::literal::is_digit(
            #[trigger] t[k],
        ) by {
            if k < last {
                assert(t[k] == front[k]);
            }
        }
        crate::json::literal::lemma_digits_behind(t, 0, last);
        lemma_same_digits(front, 0, last, t, 0);
    }
}

/// The same digits stand for the same number.
proof fn lemma_same_digits(a: Seq<u8>, from: int, to: int, b: Seq<u8>, shift: int)
    requires
        0 <= from <= to <= a.len(),
        0 <= from + shift,
        to + shift <= b.len(),
        forall|k: int| from <= k < to ==> #[trigger] a[k] == b[k + shift],
    ensures
        crate::json::literal::digits_value(a, from, to) == crate::json::literal::digits_value(
            b,
            from + shift,
            to + shift,
        ),
    decreases to - from,
{
    if from < to {
        assert(a[from] == b[from + shift]);
        lemma_same_digits(a, from + 1, to, b, shift);
    }
}

/// Digits end where they end.
pub proof fn lemma_digits_run(t: Seq<u8>, from: int, to: int)
    requires
        0 <= from <= to <= t.len(),
        forall|k: int| from <= k < to ==> crate::json::literal::is_digit(#[trigger] t[k]),
        to < t.len() ==> !crate::json::literal::is_digit(t[to]),
    ensures
        crate::json::literal::digits_end(t, from) == to,
    decreases to - from,
{
    if from < to {
        lemma_digits_run(t, from + 1, to);
    }
}

/// A numeral inside a text.
proof fn lemma_numeral_at(t: Seq<u8>, at: int, n: nat)
    requires
        stands(t, at, numeral(n)),
        at + numeral(n).len() < t.len() ==> !crate::json::literal::is_digit(
            t[at + numeral(n).len()],
        ),
    ensures
        numeral(n).len() > 0,
        forall|k: int|
            at <= k < at + numeral(n).len() ==> crate::json::literal::is_digit(#[trigger] t[k]),
        crate::json::literal::digits_end(t, at) == at + numeral(n).len(),
        crate::json::literal::digits_value(t, at, at + numeral(n).len()) == n,
{
    let d = numeral(n);
    lemma_numeral(n);
    assert forall|k: int| at <= k < at + d.len() implies crate::json::literal::is_digit(
        #[trigger] t[k],
    ) by {
        lemma_byte(t, at, d, k - at);
        assert(crate::json::literal::is_digit(d[k - at]));
    }
    assert forall|k: int| 0 <= k < d.len() implies #[trigger] d[k] == t[k + at] by {
        lemma_byte(t, at, d, k);
    }
    lemma_digits_run(t, at, at + d.len());
    lemma_same_digits(d, 0, d.len() as int, t, at);
}

/// A literal of digits alone.
proof fn lemma_integer_literal(negative: bool, n: nat)
    ensures
        ({
            let t = sign_text(negative) + numeral(n);
            &&& crate::json::literal::literal(t) == Some(
                crate::json::literal::Decimal { negative, digits: n, exponent: 0 },
            )
            &&& number_bytes(t)
        }),
{
    let sign = sign_text(negative);
    let t = sign + numeral(n);
    let from = sign.len() as int;
    assert(t.subrange(from, t.len() as int) =~= numeral(n));
    lemma_numeral_at(t, from, n);
    assert(crate::json::literal::is_digit(t[from]));
    assert(crate::json::literal::digits_value(t, t.len() as int, t.len() as int) == 0);
    assert(crate::math::pow(10, 0) == 1);
    assert(n * 1 + 0 == n);
}

/// A literal of digits and a power of ten.
proof fn lemma_scaled_literal(negative: bool, n: nat, down: bool, e: nat)
    ensures
        ({
            let mark = if down {
                seq![101u8, 45u8]
            } else {
                seq![101u8]
            };
            let t = sign_text(negative) + numeral(n) + mark + numeral(e);
            &&& crate::json::literal::literal(t) == Some(
                crate::json::literal::Decimal {
                    negative,
                    digits: n,
                    exponent: if down {
                        -(e as int)
                    } else {
                        e as int
                    },
                },
            )
            &&& number_bytes(t)
        }),
{
    let sign = sign_text(negative);
    let mark = if down {
        seq![101u8, 45u8]
    } else {
        seq![101u8]
    };
    let t = sign + numeral(n) + mark + numeral(e);
    let from = sign.len() as int;
    let end = from + numeral(n).len();
    let high = end + mark.len();
    assert(t.subrange(from, end) =~= numeral(n));
    assert(t.subrange(high, t.len() as int) =~= numeral(e));
    assert(t[end] == 101);
    if down {
        assert(t[end + 1] == 45);
    }
    lemma_numeral_at(t, from, n);
    lemma_numeral_at(t, high, e);
    assert(crate::json::literal::is_digit(t[from]));
    assert(crate::json::literal::is_digit(t[high]));
    assert(crate::json::literal::digits_value(t, end, end) == 0);
    assert(crate::math::pow(10, 0) == 1);
    assert(n * 1 + 0 == n);
    assert(crate::json::literal::after_sign(t, end + 1) == high);
}

/// Ten to a power is five and two to it.
proof fn lemma_pow10(k: nat)
    ensures
        crate::math::pow(10, k) == crate::math::pow(5, k) * crate::math::pow(2, k),
    decreases k,
{
    if k > 0 {
        lemma_pow10((k - 1) as nat);
        let a = crate::math::pow(5, (k - 1) as nat);
        let b = crate::math::pow(2, (k - 1) as nat);
        assert(10 * (a * b) == (5 * a) * (2 * b)) by (nonlinear_arith);
    } else {
        assert(1nat * 1 == 1);
    }
}

/// A number in its one form is the nearest one to its own value.
proof fn lemma_nearest_exact(negative: bool, mantissa: u64, exponent: i32, num: nat, den: nat)
    requires
        (Number::Finite { negative, mantissa, exponent }).wf(),
        den > 0,
        crate::json::number::scaled_den(den, exponent as int) > 0,
        crate::json::number::scaled_num(num, exponent as int) == crate::json::number::scaled_den(
            den,
            exponent as int,
        ) * mantissa,
    ensures
        crate::json::number::nearest(negative, num, den) == (Number::Finite {
            negative,
            mantissa,
            exponent,
        }),
{
    let q = exponent as int;
    let a = crate::json::number::scaled_num(num, q);
    let d = crate::json::number::scaled_den(den, q);
    let high = crate::json::number::MANTISSA_HIGH;
    let low = crate::json::number::MANTISSA_LOW;
    assert(d * mantissa < d * high) by (nonlinear_arith)
        requires
            mantissa < high,
            d > 0,
    ;
    if mantissa >= low {
        assert(d * mantissa >= d * low) by (nonlinear_arith)
            requires
                mantissa >= low,
        ;
    }
    crate::json::number::lemma_unit_is(num, den, q);
    assert(a == mantissa * d + 0) by (nonlinear_arith)
        requires
            a == d * mantissa,
    ;
    vstd::arithmetic::div_mod::lemma_fundamental_div_mod_converse(
        a as int,
        d as int,
        mantissa as int,
        0,
    );
    assert(crate::json::number::round_half_even(a, d) == mantissa);
}

/// The literal for a number denotes it.
proof fn lemma_numeral_of(n: Number)
    requires
        n.wf(),
    ensures
        crate::json::literal::number_of(numeral_of(n)) == Some(n),
        number_bytes(numeral_of(n)),
{
    match n {
        Number::Finite { negative, mantissa, exponent } => {
            if exponent >= 0 {
                lemma_whole_numeral(negative, mantissa, exponent);
            } else {
                lemma_scaled_numeral(negative, mantissa, exponent);
            }
        },
        Number::Infinite { negative } => {
            lemma_infinite_numeral(negative);
        },
    }
}

#[verifier::rlimit(40)]
proof fn lemma_whole_numeral(negative: bool, mantissa: u64, exponent: i32)
    requires
        exponent >= 0,
        (Number::Finite { negative, mantissa, exponent }).wf(),
    ensures
        ({
            let n = Number::Finite { negative, mantissa, exponent };
            &&& crate::json::literal::number_of(numeral_of(n)) == Some(n)
            &&& number_bytes(numeral_of(n))
        }),
{
    let n = Number::Finite { negative, mantissa, exponent };
    let m = mantissa as nat;
    let p = crate::math::pow(2, exponent as nat);
    let num = m * p;
    let t = sign_text(negative) + numeral(num);
    assert(numeral_of(n) == t);
    let d = crate::json::literal::Decimal { negative, digits: num, exponent: 0 };
    lemma_integer_literal(negative, num);
    assert(crate::json::literal::literal(t) == Some(d));
    crate::math::lemma_pow_positive(2, exponent as nat);
    assert(crate::math::pow(10, 0) == 1);
    assert(num * 1 == num);
    assert(1 * p == p);
    assert(m * p == p * m) by (nonlinear_arith);
    lemma_nearest_exact(negative, mantissa, exponent, num, 1);
    assert(crate::json::literal::decimal_num(d) == num);
    assert(crate::json::literal::decimal_den(d) == 1);
}

#[verifier::rlimit(40)]
proof fn lemma_scaled_numeral(negative: bool, mantissa: u64, exponent: i32)
    requires
        exponent < 0,
        (Number::Finite { negative, mantissa, exponent }).wf(),
    ensures
        ({
            let n = Number::Finite { negative, mantissa, exponent };
            &&& crate::json::literal::number_of(numeral_of(n)) == Some(n)
            &&& number_bytes(numeral_of(n))
        }),
{
    let n = Number::Finite { negative, mantissa, exponent };
    let m = mantissa as nat;
    let k = (-exponent) as nat;
    let five = crate::math::pow(5, k);
    let two = crate::math::pow(2, k);
    let ten = crate::math::pow(10, k);
    let num = m * five;
    let mark = seq![101u8, 45u8];
    let t = sign_text(negative) + numeral(num) + mark + numeral(k);
    assert(numeral_of(n) == sign_text(negative) + (numeral(num) + mark + numeral(k)));
    lemma_four_parts(sign_text(negative), numeral(num), mark, numeral(k));
    let d = crate::json::literal::Decimal { negative, digits: num, exponent: -(k as int) };
    lemma_scaled_literal(negative, num, true, k);
    assert(crate::json::literal::literal(t) == Some(d));
    crate::math::lemma_pow_positive(10, k);
    lemma_pow10(k);
    assert((m * five) * two == (five * two) * m) by (nonlinear_arith);
    lemma_nearest_exact(negative, mantissa, exponent, num, ten);
    assert(crate::json::literal::decimal_num(d) == num);
    assert(crate::json::literal::decimal_den(d) == ten);
}

proof fn lemma_four_parts(a: Seq<u8>, b: Seq<u8>, c: Seq<u8>, d: Seq<u8>)
    ensures
        a + (b + c + d) == a + b + c + d,
{
    assert(a + (b + c + d) =~= a + b + c + d);
}

#[verifier::rlimit(40)]
proof fn lemma_infinite_numeral(negative: bool)
    ensures
        ({
            let n = Number::Infinite { negative };
            &&& crate::json::literal::number_of(numeral_of(n)) == Some(n)
            &&& number_bytes(numeral_of(n))
        }),
{
    let n = Number::Infinite { negative };
    let t = sign_text(negative) + numeral(1) + seq![101u8] + numeral(400);
    assert(numeral_of(n) == t);
    let d = crate::json::literal::Decimal { negative, digits: 1, exponent: 400 };
    lemma_scaled_literal(negative, 1, false, 400);
    assert(crate::json::literal::literal(t) == Some(d));
    crate::json::literal::lemma_huge(d);
}

/// A string is written as it should be, and read as it is.
proof fn lemma_plain_pieces(s: Seq<char>)
    ensures
        pieces_wf(plain_pieces(s)),
        characters(plain_pieces(s), 0) == s,
{
    let p = plain_pieces(s);
    assert forall|i: int| 0 <= i < p.len() implies (#[trigger] p[i]).wf() && p[i].character()
        == s[i] by {
        assert(p[i] == plain_piece(s[i]));
    }
    assert(characters(p, 0) =~= s);
}

/// The values of elements, one by one.
proof fn lemma_item_values(items: Seq<Item>, k: int)
    requires
        0 <= k <= items.len(),
    ensures
        item_values(items, k).len() == items.len() - k,
        forall|j: int|
            0 <= j < items.len() - k ==> #[trigger] item_values(items, k)[j] == value(
                items[k + j].value,
            ),
    decreases items.len() - k,
{
    if k < items.len() {
        lemma_item_values(items, k + 1);
        assert forall|j: int| 0 <= j < items.len() - k implies #[trigger] item_values(items, k)[j]
            == value(items[k + j].value) by {
            if j > 0 {
                assert(item_values(items, k)[j] == item_values(items, k + 1)[j - 1]);
            }
        }
    }
}

/// The members, one by one.
proof fn lemma_member_values(members: Seq<Member>, k: int)
    requires
        0 <= k <= members.len(),
    ensures
        member_values(members, k).len() == members.len() - k,
        forall|j: int|
            0 <= j < members.len() - k ==> #[trigger] member_values(members, k)[j] == (
                characters(members[k + j].key, 0),
                value(members[k + j].value),
            ),
    decreases members.len() - k,
{
    if k < members.len() {
        lemma_member_values(members, k + 1);
        assert forall|j: int| 0 <= j < members.len() - k implies #[trigger] member_values(
            members,
            k,
        )[j] == (characters(members[k + j].key, 0), value(members[k + j].value)) by {
            if j > 0 {
                assert(member_values(members, k)[j] == member_values(members, k + 1)[j - 1]);
            }
        }
    }
}

/// Where no key stands twice, every member is kept.
proof fn lemma_all_kept(m: Seq<(Seq<char>, Json)>)
    requires
        crate::json::grammar::distinct_keys(m),
    ensures
        crate::json::grammar::last_of_each(m) == m,
    decreases m.len(),
{
    if m.len() > 0 {
        let front = m.drop_last();
        assert forall|i: int, j: int| 0 <= i < j < front.len() implies (#[trigger] front[i]).0 != (
        #[trigger] front[j]).0 by {
            assert(m[i].0 != m[j].0);
        }
        lemma_all_kept(front);
        assert forall|i: int| 0 <= i < front.len() implies (#[trigger] front[i]).0
            != m.last().0 by {
            assert(m[i].0 != m[m.len() - 1].0);
        }
        crate::json::grammar::lemma_without_absent(front, m.last().0);
        assert(front.push(m.last()) =~= m);
    }
}

/// Every value can be written: where no object has a key twice, there is a text for
/// it, so that reading the text gives the value.
pub proof fn every_value_can_be_written(v: Json)
    requires
        crate::json::grammar::keys_distinct(v),
        numbers_wf(v),
    ensures
        wf(plain(v)),
        value(plain(v)) == v,
        crate::json::grammar::document(text(plain(v))) == Ok::<Json, crate::json::grammar::Fault>(
            v,
        ),
    decreases v,
{
    match v {
        Json::Num(n) => {
            lemma_numeral_of(n);
        },
        Json::Str(s) => {
            lemma_plain_pieces(s);
        },
        Json::Arr(a) => {
            let items = plain(v)->Arr_1;
            assert forall|i: int| 0 <= i < a.len() implies wf((#[trigger] items[i]).value) && value(
                items[i].value,
            ) == a[i] by {
                assert(crate::json::grammar::keys_distinct(a[i]));
                assert(numbers_wf(a[i]));
                assert(decreases_to!(v => v->Arr_0));
                assert(decreases_to!(a => a[i]));
                every_value_can_be_written(a[i]);
            }
            lemma_item_values(items, 0);
            assert(item_values(items, 0) =~= a);
        },
        Json::Obj(m) => {
            let members = plain(v)->Obj_1;
            assert forall|i: int| 0 <= i < m.len() implies pieces_wf((#[trigger] members[i]).key)
                && wf(members[i].value) && value(members[i].value) == m[i].1 && characters(
                members[i].key,
                0,
            ) == m[i].0 by {
                assert(crate::json::grammar::keys_distinct(m[i].1));
                assert(numbers_wf(m[i].1));
                assert(decreases_to!(v => v->Obj_0));
                assert(decreases_to!(m => m[i]));
                assert(decreases_to!(m[i] => m[i].1));
                every_value_can_be_written(m[i].1);
                lemma_plain_pieces(m[i].0);
            }
            lemma_member_values(members, 0);
            assert(member_values(members, 0) =~= m);
            lemma_all_kept(m);
        },
        _ => {},
    }
    let nothing = Seq::<u8>::empty();
    written_values_are_read_back(nothing, plain(v), nothing);
    assert(nothing + text(plain(v)) + nothing =~= text(plain(v)));
}

/// The numbers of a value that is read are in their one form.
proof fn lemma_read_numbers(s: Seq<u8>, i: int)
    requires
        0 <= i <= s.len(),
    ensures
        crate::json::grammar::value_at(s, i) matches Ok((v, _)) ==> numbers_wf(v),
    decreases s.len() - i, 1int,
{
    if i >= s.len() {
    } else if s[i] == 123 {
        crate::json::grammar::lemma_skip_space(s, i + 1);
        lemma_read_members(s, i + 1);
        if let Ok((members, end)) = crate::json::grammar::members_at(s, i + 1) {
            let kept = crate::json::grammar::last_of_each(members);
            assert forall|k: int| 0 <= k < kept.len() implies numbers_wf((#[trigger] kept[k]).1) by {
                crate::json::grammar::lemma_last_of_each_members(members, k);
            }
        }
    } else if s[i] == 91 {
        crate::json::grammar::lemma_skip_space(s, i + 1);
        lemma_read_elements(s, i + 1);
    } else if s[i] == 34 || s[i] == 116 || s[i] == 102 || s[i] == 110 {
    } else {
        crate::json::grammar::lemma_number_end(s, i);
        crate::json::literal::literals_are_wf(
            s.subrange(i, crate::json::grammar::number_end(s, i)),
        );
    }
}

proof fn lemma_read_elements(s: Seq<u8>, i: int)
    requires
        0 <= i <= s.len(),
    ensures
        crate::json::grammar::elements_at(s, i) matches Ok((a, _)) ==> forall|k: int|
            0 <= k < a.len() ==> numbers_wf(#[trigger] a[k]),
    decreases s.len() - i, 2int,
{
    crate::json::grammar::lemma_skip_space(s, i);
    let from = crate::json::grammar::skip_space(s, i);
    crate::json::grammar::value_ends_inside(s, from);
    lemma_read_numbers(s, from);
    if let Ok((v, end)) = crate::json::grammar::value_at(s, from) {
        crate::json::grammar::lemma_skip_space(s, end);
        let mark = crate::json::grammar::skip_space(s, end);
        if mark < s.len() && s[mark] == 44 {
            lemma_read_elements(s, mark + 1);
        }
    }
}

proof fn lemma_read_members(s: Seq<u8>, i: int)
    requires
        0 <= i <= s.len(),
    ensures
        crate::json::grammar::members_at(s, i) matches Ok((m, _)) ==> forall|k: int|
            0 <= k < m.len() ==> numbers_wf((#[trigger] m[k]).1),
    decreases s.len() - i, 2int,
{
    crate::json::grammar::lemma_skip_space(s, i);
    let from = crate::json::grammar::skip_space(s, i);
    if from < s.len() {
        crate::json::grammar::lemma_text_end(s, from + 1);
    }
    if let Ok((key, key_end)) = crate::json::grammar::string_at(s, from) {
        crate::json::grammar::lemma_skip_space(s, key_end);
        let colon = crate::json::grammar::skip_space(s, key_end);
        if colon < s.len() && s[colon] == 58 {
            crate::json::grammar::lemma_skip_space(s, colon + 1);
            let start = crate::json::grammar::skip_space(s, colon + 1);
            crate::json::grammar::value_ends_inside(s, start);
            lemma_read_numbers(s, start);
            if let Ok((v, end)) = crate::json::grammar::value_at(s, start) {
                crate::json::grammar::lemma_skip_space(s, end);
                let mark = crate::json::grammar::skip_space(s, end);
                if mark < s.len() && s[mark] == 44 {
                    lemma_read_members(s, mark + 1);
                }
            }
        }
    }
}

/// What was read can be written again, and is read as the same value.
pub proof fn read_values_can_be_written(s: Seq<u8>)
    requires
        crate::json::grammar::document(s) is Ok,
    ensures
        crate::json::grammar::document(text(plain(crate::json::grammar::document(s)->Ok_0)))
            == crate::json::grammar::document(s),
{
    crate::json::grammar::lemma_skip_space(s, 0);
    let from = crate::json::grammar::skip_space(s, 0);
    crate::json::grammar::read_keys_are_distinct(s, from);
    lemma_read_numbers(s, from);
    every_value_can_be_written(crate::json::grammar::document(s)->Ok_0);
}

} // verus!
