//! That nothing but JSON is read: every text that is read is one that is written as
//! JSON, for the value that was read.
use crate::json::grammar::Json;
use crate::json::written::{Item, Member, Piece, Written};
use vstd::prelude::*;
use vstd::utf8::*;

verus! {

/// Two parts of a text that meet.
proof fn lemma_join(s: Seq<u8>, a: int, b: int, c: int)
    requires
        0 <= a <= b <= c <= s.len(),
    ensures
        s.subrange(a, b) + s.subrange(b, c) == s.subrange(a, c),
{
    assert(s.subrange(a, b) + s.subrange(b, c) =~= s.subrange(a, c));
}

/// One byte and what follows it.
proof fn lemma_join_byte(s: Seq<u8>, a: int, c: int)
    requires
        0 <= a < c <= s.len(),
    ensures
        seq![s[a]] + s.subrange(a + 1, c) == s.subrange(a, c),
{
    assert(seq![s[a]] + s.subrange(a + 1, c) =~= s.subrange(a, c));
}

/// What is skipped is white space.
proof fn lemma_gap_is_blank(s: Seq<u8>, i: int)
    requires
        0 <= i <= s.len(),
    ensures
        i <= crate::json::grammar::skip_space(s, i) <= s.len(),
        crate::json::written::blank(s.subrange(i, crate::json::grammar::skip_space(s, i))),
    decreases s.len() - i,
{
    let to = crate::json::grammar::skip_space(s, i);
    if i < s.len() && crate::json::grammar::is_space(s[i]) {
        lemma_gap_is_blank(s, i + 1);
        let gap = s.subrange(i, to);
        let rest = s.subrange(i + 1, to);
        assert forall|k: int| 0 <= k < gap.len() implies crate::json::grammar::is_space(
            #[trigger] gap[k],
        ) by {
            if k > 0 {
                assert(gap[k] == rest[k - 1]);
            }
        }
    }
}

/// One more piece in front.
proof fn lemma_pieces_shift(first: Piece, rest: Seq<Piece>, k: int)
    requires
        0 <= k <= rest.len(),
    ensures
        crate::json::written::pieces_text(seq![first] + rest, k + 1)
            == crate::json::written::pieces_text(rest, k),
    decreases rest.len() - k,
{
    let all = seq![first] + rest;
    if k < rest.len() {
        assert(all[k + 1] == rest[k]);
        lemma_pieces_shift(first, rest, k + 1);
    }
}

proof fn lemma_piece_before(first: Piece, rest: Seq<Piece>)
    requires
        first.wf(),
        crate::json::written::pieces_wf(rest),
    ensures
        ({
            let all = seq![first] + rest;
            &&& crate::json::written::pieces_wf(all)
            &&& crate::json::written::pieces_text(all, 0) == first.text()
                + crate::json::written::pieces_text(rest, 0)
            &&& crate::json::written::characters(all, 0) == seq![first.character()]
                + crate::json::written::characters(rest, 0)
        }),
{
    let all = seq![first] + rest;
    lemma_pieces_shift(first, rest, 0);
    assert(all[0] == first);
    assert forall|i: int| 0 <= i < all.len() implies (#[trigger] all[i]).wf() by {
        if i > 0 {
            assert(all[i] == rest[i - 1]);
        }
    }
    assert(crate::json::written::characters(all, 0) =~= seq![first.character()]
        + crate::json::written::characters(rest, 0));
}

/// A character as it is.
pub open spec fn as_it_is(c: char) -> Piece {
    Piece::Plain(c)
}

/// Characters as they are.
pub open spec fn plains(chars: Seq<char>) -> Seq<Piece> {
    chars.map_values(|c: char| as_it_is(c))
}

/// Quotes and backslashes are encoded as themselves.
proof fn lemma_marks_are_bytes()
    ensures
        encode_scalar('"' as u32) == seq![34u8],
        encode_scalar('\\' as u32) == seq![92u8],
{
    assert(leading_byte_width_1(34) == 34u8) by (bit_vector);
    assert(leading_byte_width_1(92) == 92u8) by (bit_vector);
}

proof fn lemma_plains_before(c: char, tail: Seq<char>)
    ensures
        plains(seq![c] + tail) == seq![as_it_is(c)] + plains(tail),
{
    let all = seq![c] + tail;
    let (p, q) = (plains(all), seq![as_it_is(c)] + plains(tail));
    assert(p.len() == q.len());
    assert forall|i: int| 0 <= i < p.len() implies p[i] == q[i] by {
        assert(p[i] == as_it_is(all[i]));
        if i > 0 {
            assert(q[i] == plains(tail)[i - 1]);
            assert(plains(tail)[i - 1] == as_it_is(tail[i - 1]));
        }
    }
    assert(p =~= q);
}

proof fn lemma_plains(chars: Seq<char>, rest: Seq<Piece>)
    requires
        crate::json::written::pieces_wf(rest),
        forall|k: int|
            0 <= k < encode_utf8(chars).len() ==> (#[trigger] encode_utf8(chars)[k]) != 34
                && encode_utf8(chars)[k] != 92,
    ensures
        ({
            let all = plains(chars) + rest;
            &&& crate::json::written::pieces_wf(all)
            &&& crate::json::written::pieces_text(all, 0) == encode_utf8(chars)
                + crate::json::written::pieces_text(rest, 0)
            &&& crate::json::written::characters(all, 0) == chars
                + crate::json::written::characters(rest, 0)
        }),
    decreases chars.len(),
{
    let all = plains(chars) + rest;
    let bytes = encode_utf8(chars);
    if chars.len() == 0 {
        assert(plains(chars) =~= Seq::<Piece>::empty());
        assert(all =~= rest);
        assert(bytes + crate::json::written::pieces_text(rest, 0)
            =~= crate::json::written::pieces_text(rest, 0));
        assert(chars + crate::json::written::characters(rest, 0)
            =~= crate::json::written::characters(rest, 0));
    } else {
        let c = chars[0];
        let tail = chars.drop_first();
        let head = encode_scalar(c as u32);
        let behind = encode_utf8(tail);
        assert(bytes == head + behind);
        assert forall|k: int| 0 <= k < behind.len() implies (#[trigger] behind[k]) != 34
            && behind[k] != 92 by {
            assert(bytes[head.len() + k] == behind[k]);
        }
        lemma_marks_are_bytes();
        if head.len() > 0 {
            assert(bytes[0] == head[0]);
        }
        assert(c != '"' && c != '\\');
        lemma_plains(tail, rest);
        let more = plains(tail) + rest;
        assert(chars =~= seq![c] + tail);
        lemma_plains_before(c, tail);
        assert(all =~= seq![Piece::Plain(c)] + more);
        lemma_piece_before(Piece::Plain(c), more);
        assert(head + (behind + crate::json::written::pieces_text(rest, 0)) =~= bytes
            + crate::json::written::pieces_text(rest, 0));
        assert(seq![c] + (tail + crate::json::written::characters(rest, 0)) =~= chars
            + crate::json::written::characters(rest, 0));
    }
}

/// The pieces of a string that is read.
proof fn lemma_text_is_written(s: Seq<u8>, i: int) -> (pieces: Seq<Piece>)
    requires
        0 <= i <= s.len(),
        crate::json::grammar::text_at(s, i) is Ok,
    ensures
        ({
            let (t, end) = crate::json::grammar::text_at(s, i)->Ok_0;
            &&& crate::json::written::pieces_wf(pieces)
            &&& i < end <= s.len()
            &&& crate::json::written::pieces_text(pieces, 0) == s.subrange(i, end)
            &&& crate::json::written::characters(pieces, 0) == t
        }),
    decreases s.len() - i,
{
    let (t, end) = crate::json::grammar::text_at(s, i)->Ok_0;
    crate::json::grammar::lemma_text_end(s, i);
    if s[i] == 34 {
        let none = Seq::<Piece>::empty();
        assert(s.subrange(i, i + 1) =~= seq![34u8]);
        assert(crate::json::written::pieces_text(none, 0) == seq![34u8]);
        assert(crate::json::written::characters(none, 0) =~= Seq::<char>::empty());
        none
    } else if s[i] == 92 {
        let (c, behind) = crate::json::grammar::escape_at(s, i + 1)->Ok_0;
        let rest = lemma_text_is_written(s, behind);
        let piece = if s[i + 1] == 117 {
            Piece::Code(s[i + 2], s[i + 3], s[i + 4], s[i + 5])
        } else {
            Piece::Short(s[i + 1])
        };
        lemma_piece_before(piece, rest);
        assert(s.subrange(i, behind) =~= piece.text());
        lemma_join(s, i, behind, end);
        seq![piece] + rest
    } else {
        crate::json::grammar::lemma_plain_end(s, i);
        crate::json::grammar::lemma_plain_end(s, i + 1);
        let stop = crate::json::grammar::plain_end(s, i);
        let run = s.subrange(i, stop);
        let chars = decode_utf8(run);
        let rest = lemma_text_is_written(s, stop);
        decode_utf8_encode_utf8(run);
        lemma_run_is_plain(s, i);
        lemma_plains(chars, rest);
        lemma_join(s, i, stop, end);
        plains(chars) + rest
    }
}

/// A run of plain bytes has no quote and no backslash.
proof fn lemma_run_is_plain(s: Seq<u8>, i: int)
    requires
        0 <= i <= s.len(),
    ensures
        ({
            let run = s.subrange(i, crate::json::grammar::plain_end(s, i));
            &&& i <= crate::json::grammar::plain_end(s, i) <= s.len()
            &&& forall|k: int|
                0 <= k < run.len() ==> (#[trigger] run[k]) != 34 && run[k] != 92
        }),
    decreases s.len() - i,
{
    if i < s.len() && s[i] != 34 && s[i] != 92 {
        lemma_run_is_plain(s, i + 1);
        let to = crate::json::grammar::plain_end(s, i);
        let run = s.subrange(i, to);
        let rest = s.subrange(i + 1, to);
        assert forall|k: int| 0 <= k < run.len() implies (#[trigger] run[k]) != 34 && run[k]
            != 92 by {
            if k > 0 {
                assert(run[k] == rest[k - 1]);
            }
        }
    }
}

/// The pieces of a string that is read, from its quote on.
proof fn lemma_string_is_written(s: Seq<u8>, i: int) -> (pieces: Seq<Piece>)
    requires
        0 <= i <= s.len(),
        crate::json::grammar::string_at(s, i) is Ok,
    ensures
        ({
            let (t, end) = crate::json::grammar::string_at(s, i)->Ok_0;
            &&& crate::json::written::pieces_wf(pieces)
            &&& i < end <= s.len()
            &&& crate::json::written::string_text(pieces) == s.subrange(i, end)
            &&& crate::json::written::characters(pieces, 0) == t
        }),
{
    let (t, end) = crate::json::grammar::string_at(s, i)->Ok_0;
    let pieces = lemma_text_is_written(s, i + 1);
    lemma_join_byte(s, i, end);
    pieces
}

/// A number ends where its bytes do.
pub proof fn lemma_number_bytes(s: Seq<u8>, i: int)
    requires
        0 <= i <= s.len(),
    ensures
        i <= crate::json::grammar::number_end(s, i) <= s.len(),
        crate::json::written::number_bytes(
            s.subrange(i, crate::json::grammar::number_end(s, i)),
        ),
    decreases s.len() - i,
{
    if i < s.len() && crate::json::grammar::is_number_byte(s[i]) {
        lemma_number_bytes(s, i + 1);
        let to = crate::json::grammar::number_end(s, i);
        let run = s.subrange(i, to);
        let rest = s.subrange(i + 1, to);
        assert forall|k: int| 0 <= k < run.len() implies crate::json::grammar::is_number_byte(
            #[trigger] run[k],
        ) by {
            if k > 0 {
                assert(run[k] == rest[k - 1]);
            }
        }
    }
}

/// One more element in front.
proof fn lemma_items_shift(first: Item, rest: Seq<Item>, k: int)
    requires
        0 <= k <= rest.len(),
    ensures
        crate::json::written::items_text(seq![first] + rest, k + 1)
            == crate::json::written::items_text(rest, k),
        crate::json::written::item_values(seq![first] + rest, k + 1)
            == crate::json::written::item_values(rest, k),
    decreases rest.len() - k,
{
    let all = seq![first] + rest;
    if k < rest.len() {
        assert(all[k + 1] == rest[k]);
        lemma_items_shift(first, rest, k + 1);
    }
}

/// One more member in front.
proof fn lemma_members_shift(first: Member, rest: Seq<Member>, k: int)
    requires
        0 <= k <= rest.len(),
    ensures
        crate::json::written::members_text(seq![first] + rest, k + 1)
            == crate::json::written::members_text(rest, k),
        crate::json::written::member_values(seq![first] + rest, k + 1)
            == crate::json::written::member_values(rest, k),
    decreases rest.len() - k,
{
    let all = seq![first] + rest;
    if k < rest.len() {
        assert(all[k + 1] == rest[k]);
        lemma_members_shift(first, rest, k + 1);
    }
}

/// An element is written as it should be.
pub open spec fn item_wf(item: Item) -> bool {
    &&& crate::json::written::blank(item.before)
    &&& crate::json::written::wf(item.value)
    &&& crate::json::written::blank(item.after)
}

/// A member is written as it should be.
pub open spec fn member_wf(m: Member) -> bool {
    &&& crate::json::written::blank(m.before)
    &&& crate::json::written::pieces_wf(m.key)
    &&& crate::json::written::blank(m.behind_key)
    &&& crate::json::written::blank(m.before_value)
    &&& crate::json::written::wf(m.value)
    &&& crate::json::written::blank(m.after)
}

/// The value that is read, as it is written.
proof fn lemma_value_is_written(s: Seq<u8>, i: int) -> (w: Written)
    requires
        0 <= i <= s.len(),
        crate::json::grammar::value_at(s, i) is Ok,
    ensures
        ({
            let (v, end) = crate::json::grammar::value_at(s, i)->Ok_0;
            &&& i < end <= s.len()
            &&& crate::json::written::wf(w)
            &&& crate::json::written::text(w) == s.subrange(i, end)
            &&& crate::json::written::value(w) == v
        }),
    decreases s.len() - i, 1int,
{
    let (v, end) = crate::json::grammar::value_at(s, i)->Ok_0;
    crate::json::grammar::value_ends_inside(s, i);
    if s[i] == 123 {
        lemma_gap_is_blank(s, i + 1);
        let from = crate::json::grammar::skip_space(s, i + 1);
        if s[from] == 125 {
            let gap = s.subrange(i + 1, from);
            let none = Seq::<Member>::empty();
            let w = Written::Obj(gap, none);
            assert(s.subrange(from, end) =~= seq![125u8]);
            lemma_join(s, i + 1, from, end);
            lemma_join_byte(s, i, end);
            assert(crate::json::written::member_values(none, 0) =~= Seq::<
                (Seq<char>, Json),
            >::empty());
            w
        } else {
            let members = lemma_members_are_written(s, i + 1);
            let w = Written::Obj(Seq::empty(), members);
            lemma_join_byte(s, i, end);
            assert(crate::json::written::wf(w)) by {
                assert forall|k: int| 0 <= k < members.len() implies member_wf(
                    #[trigger] members[k],
                ) by {}
            }
            w
        }
    } else if s[i] == 91 {
        lemma_gap_is_blank(s, i + 1);
        let from = crate::json::grammar::skip_space(s, i + 1);
        if s[from] == 93 {
            let gap = s.subrange(i + 1, from);
            let none = Seq::<Item>::empty();
            let w = Written::Arr(gap, none);
            assert(s.subrange(from, end) =~= seq![93u8]);
            lemma_join(s, i + 1, from, end);
            lemma_join_byte(s, i, end);
            assert(crate::json::written::item_values(none, 0) =~= Seq::<Json>::empty());
            w
        } else {
            let items = lemma_elements_are_written(s, i + 1);
            let w = Written::Arr(Seq::empty(), items);
            lemma_join_byte(s, i, end);
            assert(crate::json::written::wf(w)) by {
                assert forall|k: int| 0 <= k < items.len() implies item_wf(
                    #[trigger] items[k],
                ) by {}
            }
            w
        }
    } else if s[i] == 34 {
        let pieces = lemma_string_is_written(s, i);
        Written::Str(pieces)
    } else if s[i] == 116 || s[i] == 102 || s[i] == 110 {
        if crate::json::grammar::stands_at(s, i, crate::json::grammar::word_true()) {
            Written::Bool(true)
        } else if crate::json::grammar::stands_at(s, i, crate::json::grammar::word_false()) {
            Written::Bool(false)
        } else {
            Written::Null
        }
    } else {
        lemma_number_bytes(s, i);
        Written::Num(s.subrange(i, end))
    }
}

/// The elements that are read, as they are written.
proof fn lemma_elements_are_written(s: Seq<u8>, i: int) -> (items: Seq<Item>)
    requires
        0 <= i <= s.len(),
        crate::json::grammar::elements_at(s, i) is Ok,
    ensures
        ({
            let (a, end) = crate::json::grammar::elements_at(s, i)->Ok_0;
            &&& items.len() > 0
            &&& i <= end <= s.len()
            &&& forall|k: int| 0 <= k < items.len() ==> item_wf(#[trigger] items[k])
            &&& crate::json::written::items_text(items, 0) == s.subrange(i, end)
            &&& crate::json::written::item_values(items, 0) == a
        }),
    decreases s.len() - i, 2int,
{
    let (a, end) = crate::json::grammar::elements_at(s, i)->Ok_0;
    lemma_gap_is_blank(s, i);
    let from = crate::json::grammar::skip_space(s, i);
    let w = lemma_value_is_written(s, from);
    let (v, to) = crate::json::grammar::value_at(s, from)->Ok_0;
    lemma_gap_is_blank(s, to);
    let mark = crate::json::grammar::skip_space(s, to);
    let item = Item { before: s.subrange(i, from), value: w, after: s.subrange(to, mark) };
    let rest = if s[mark] == 44 {
        lemma_elements_are_written(s, mark + 1)
    } else {
        Seq::empty()
    };
    let items = seq![item] + rest;
    assert(items[0] == item);
    lemma_items_shift(item, rest, 0);
    assert forall|k: int| 0 <= k < items.len() implies item_wf(#[trigger] items[k]) by {
        if k > 0 {
            assert(items[k] == rest[k - 1]);
        }
    }
    if s[mark] == 44 {
        lemma_join_byte(s, mark, end);
        assert(crate::json::written::item_values(items, 0) == seq![v]
            + crate::json::written::item_values(rest, 0));
    } else {
        assert(s.subrange(mark, end) =~= seq![93u8]);
        assert(crate::json::written::item_values(items, 1) =~= Seq::<Json>::empty());
        assert(crate::json::written::item_values(items, 0) =~= seq![v]);
    }
    lemma_join(s, to, mark, end);
    lemma_join(s, from, to, end);
    lemma_join(s, i, from, end);
    items
}

/// The members that are read, as they are written.
proof fn lemma_members_are_written(s: Seq<u8>, i: int) -> (members: Seq<Member>)
    requires
        0 <= i <= s.len(),
        crate::json::grammar::members_at(s, i) is Ok,
    ensures
        ({
            let (m, end) = crate::json::grammar::members_at(s, i)->Ok_0;
            &&& members.len() > 0
            &&& i <= end <= s.len()
            &&& forall|k: int| 0 <= k < members.len() ==> member_wf(#[trigger] members[k])
            &&& crate::json::written::members_text(members, 0) == s.subrange(i, end)
            &&& crate::json::written::member_values(members, 0) == m
        }),
    decreases s.len() - i, 2int,
{
    let (m, end) = crate::json::grammar::members_at(s, i)->Ok_0;
    lemma_gap_is_blank(s, i);
    let from = crate::json::grammar::skip_space(s, i);
    let key = lemma_string_is_written(s, from);
    let (name, key_end) = crate::json::grammar::string_at(s, from)->Ok_0;
    lemma_gap_is_blank(s, key_end);
    let colon = crate::json::grammar::skip_space(s, key_end);
    lemma_gap_is_blank(s, colon + 1);
    let start = crate::json::grammar::skip_space(s, colon + 1);
    let w = lemma_value_is_written(s, start);
    let (v, to) = crate::json::grammar::value_at(s, start)->Ok_0;
    lemma_gap_is_blank(s, to);
    let mark = crate::json::grammar::skip_space(s, to);
    let member = Member {
        before: s.subrange(i, from),
        key,
        behind_key: s.subrange(key_end, colon),
        before_value: s.subrange(colon + 1, start),
        value: w,
        after: s.subrange(to, mark),
    };
    let rest = if s[mark] == 44 {
        lemma_members_are_written(s, mark + 1)
    } else {
        Seq::empty()
    };
    let members = seq![member] + rest;
    assert(members[0] == member);
    lemma_members_shift(member, rest, 0);
    assert forall|k: int| 0 <= k < members.len() implies member_wf(#[trigger] members[k]) by {
        if k > 0 {
            assert(members[k] == rest[k - 1]);
        }
    }
    if s[mark] == 44 {
        lemma_join_byte(s, mark, end);
        assert(crate::json::written::member_values(members, 0) == seq![(name, v)]
            + crate::json::written::member_values(rest, 0));
    } else {
        assert(s.subrange(mark, end) =~= seq![125u8]);
        assert(crate::json::written::member_values(members, 1) =~= Seq::<
            (Seq<char>, Json),
        >::empty());
        assert(crate::json::written::member_values(members, 0) =~= seq![(name, v)]);
    }
    lemma_join(s, to, mark, end);
    lemma_join(s, start, to, end);
    lemma_join(s, colon + 1, start, end);
    lemma_join_byte(s, colon, end);
    lemma_join(s, key_end, colon, end);
    lemma_join(s, from, key_end, end);
    lemma_join(s, i, from, end);
    members
}

/// Nothing but JSON is read: a text that is read is white space, a value as it is
/// written, and white space again, and what is read is the value that is written.
pub proof fn only_written_values_are_read(s: Seq<u8>) -> (parts: (Seq<u8>, Written, Seq<u8>))
    requires
        crate::json::grammar::document(s) is Ok,
    ensures
        crate::json::written::blank(parts.0),
        crate::json::written::wf(parts.1),
        crate::json::written::blank(parts.2),
        s == parts.0 + crate::json::written::text(parts.1) + parts.2,
        crate::json::grammar::document(s) == Ok::<Json, crate::json::grammar::Fault>(
            crate::json::written::value(parts.1),
        ),
{
    lemma_gap_is_blank(s, 0);
    let from = crate::json::grammar::skip_space(s, 0);
    let w = lemma_value_is_written(s, from);
    let (v, end) = crate::json::grammar::value_at(s, from)->Ok_0;
    lemma_gap_is_blank(s, end);
    let before = s.subrange(0, from);
    let after = s.subrange(end, s.len() as int);
    lemma_join(s, 0, from, end);
    lemma_join(s, 0, end, s.len() as int);
    assert(s.subrange(0, s.len() as int) =~= s);
    (before, w, after)
}

} // verus!
