//! The reader of JSON: a descent over the bytes.
use crate::json::literal::parse_number;
use crate::json::{message_at, Object, Value};
use crate::text::{usize_string, utf8_str};
use vstd::prelude::*;
use vstd::slice::slice_subrange;
use vstd::utf8::*;

verus! {

/// `char::from_u32`: the character of a code, if the code is one of a character.
pub assume_specification[ char::from_u32 ](i: u32) -> (r: Option<char>)
    ensures
        r == (if crate::json::grammar::is_code_point(i as int) {
            Some(i as char)
        } else {
            None
        }),
;

/// A place in a text.
pub(crate) struct Parser<'a> {
    pub(crate) s: &'a [u8],
    pub(crate) i: usize,
}

/// A result with values put before it.
spec fn values_before(
    a: Seq<crate::json::grammar::Json>,
    r: Result<(Seq<crate::json::grammar::Json>, int), crate::json::grammar::Fault>,
) -> Result<(Seq<crate::json::grammar::Json>, int), crate::json::grammar::Fault> {
    match r {
        Ok((rest, end)) => Ok((a + rest, end)),
        Err(f) => Err(f),
    }
}

/// A result with members put before it.
spec fn members_before(
    a: Seq<(Seq<char>, crate::json::grammar::Json)>,
    r: Result<(Seq<(Seq<char>, crate::json::grammar::Json)>, int), crate::json::grammar::Fault>,
) -> Result<(Seq<(Seq<char>, crate::json::grammar::Json)>, int), crate::json::grammar::Fault> {
    match r {
        Ok((rest, end)) => Ok((a + rest, end)),
        Err(f) => Err(f),
    }
}

/// Does `word` stand at `i`?
fn stands_at(s: &[u8], i: usize, word: &[u8]) -> (r: bool)
    requires
        i <= s@.len(),
    ensures
        r == crate::json::grammar::stands_at(s@, i as int, word@),
{
    if s.len() - i < word.len() {
        return false;
    }
    let ghost part = s@.subrange(i as int, i + word@.len());
    let mut j: usize = 0;
    while j < word.len()
        invariant
            j <= word@.len(),
            i + word.len() <= s.len(),
            part == s@.subrange(i as int, i + word@.len()),
            forall|k: int| 0 <= k < j ==> part[k] == word@[k],
        decreases word@.len() - j,
    {
        if s[i + j] != word[j] {
            assert(part[j as int] != word@[j as int]);
            return false;
        }
        j += 1;
    }
    assert(part =~= word@);
    true
}

/// The value of a hexadecimal digit.
fn hex_digit(b: u8) -> (r: Option<u32>)
    ensures
        match r {
            Some(d) => d < 16 && crate::json::grammar::hex_digit(b) == Some(d as nat),
            None => crate::json::grammar::hex_digit(b) is None,
        },
{
    if 48 <= b && b <= 57 {
        Some((b - 48) as u32)
    } else if 65 <= b && b <= 70 {
        Some((b - 55) as u32)
    } else if 97 <= b && b <= 102 {
        Some((b - 87) as u32)
    } else {
        None
    }
}

impl<'a> Parser<'a> {
    /// Is the place inside the text?
    pub(crate) open spec fn wf(self) -> bool {
        self.i <= self.s@.len() <= usize::MAX
    }

    /// Skips spaces.
    pub(crate) fn ws(&mut self)
        requires
            old(self).wf(),
        ensures
            final(self).wf(),
            final(self).s == old(self).s,
            final(self).i == crate::json::grammar::skip_space(old(self).s@, old(self).i as int),
    {
        let ghost from = self.i;
        while self.i < self.s.len() && (self.s[self.i] == 32 || self.s[self.i] == 9
            || self.s[self.i] == 10 || self.s[self.i] == 13)
            invariant
                self.wf(),
                self.s == old(self).s,
                crate::json::grammar::skip_space(self.s@, from as int)
                    == crate::json::grammar::skip_space(self.s@, self.i as int),
            decreases self.s@.len() - self.i,
        {
            self.i += 1;
        }
    }

    /// The byte at the place.
    fn peek(&self) -> (r: Result<u8, String>)
        ensures
            match r {
                Ok(b) => self.i < self.s@.len() && b == self.s@[self.i as int],
                Err(e) => self.i >= self.s@.len() && e@
                    == crate::json::grammar::Fault::End.message(),
            },
    {
        if self.i < self.s.len() {
            Ok(self.s[self.i])
        } else {
            Err("unexpected end of JSON".to_owned())
        }
    }

    /// One of the three words.
    fn literal(&mut self) -> (r: Result<Value, String>)
        requires
            old(self).wf(),
        ensures
            final(self).wf(),
            final(self).s == old(self).s,
            match r {
                Ok(v) => crate::json::grammar::literal_at(old(self).s@, old(self).i as int) == Ok::<
                    (crate::json::grammar::Json, int),
                    crate::json::grammar::Fault,
                >((v@, final(self).i as int)),
                Err(e) => crate::json::grammar::literal_at(
                    old(self).s@,
                    old(self).i as int,
                ) matches Err(f) && e@ == f.message(),
            },
    {
        let word_true: [u8; 4] = [116, 114, 117, 101];
        let word_false: [u8; 5] = [102, 97, 108, 115, 101];
        let word_null: [u8; 4] = [110, 117, 108, 108];
        proof {
            assert(word_true@ =~= crate::json::grammar::word_true());
            assert(word_false@ =~= crate::json::grammar::word_false());
            assert(word_null@ =~= crate::json::grammar::word_null());
        }
        let v;
        if stands_at(self.s, self.i, &word_true) {
            self.i += 4;
            v = Value::Bool(true);
        } else if stands_at(self.s, self.i, &word_false) {
            self.i += 5;
            v = Value::Bool(false);
        } else if stands_at(self.s, self.i, &word_null) {
            self.i += 4;
            v = Value::Null;
        } else {
            return Err(message_at("bad literal at ", self.i));
        }
        if self.i < self.s.len() {
            let b: u8 = self.s[self.i];
            if (48 <= b && b <= 57) || (65 <= b && b <= 90) || (97 <= b && b <= 122) || b == 95 {
                return Err(message_at("bad literal at ", self.i));
            }
        }
        Ok(v)
    }

    /// A number.
    fn number(&mut self) -> (r: Result<Value, String>)
        requires
            old(self).wf(),
        ensures
            final(self).wf(),
            final(self).s == old(self).s,
            match r {
                Ok(v) => crate::json::grammar::number_at(old(self).s@, old(self).i as int) == Ok::<
                    (crate::json::grammar::Json, int),
                    crate::json::grammar::Fault,
                >((v@, final(self).i as int)),
                Err(e) => crate::json::grammar::number_at(
                    old(self).s@,
                    old(self).i as int,
                ) matches Err(f) && e@ == f.message(),
            },
    {
        let start: usize = self.i;
        proof {
            crate::json::grammar::lemma_number_end(self.s@, start as int);
        }
        while self.i < self.s.len() && ((48 <= self.s[self.i] && self.s[self.i] <= 57)
            || self.s[self.i] == 46 || self.s[self.i] == 101 || self.s[self.i] == 69
            || self.s[self.i] == 45 || self.s[self.i] == 43)
            invariant
                self.wf(),
                start <= self.i,
                self.s == old(self).s,
                crate::json::grammar::number_end(self.s@, start as int)
                    == crate::json::grammar::number_end(self.s@, self.i as int),
            decreases self.s@.len() - self.i,
        {
            self.i += 1;
        }
        let text = slice_subrange(self.s, start, self.i);
        match parse_number(text) {
            Some(n) => Ok(Value::Num(n)),
            None => {
                let mut e = "bad number `".to_owned();
                let t = latin_string(text);
                e.append(t.as_str());
                e.append("` at ");
                let d = usize_string(start);
                e.append(d.as_str());
                e.append(": ");
                if text.len() == 0 {
                    e.append("cannot parse float from empty string");
                } else {
                    e.append("invalid float literal");
                }
                Err(e)
            },
        }
    }

    /// The character that four hexadecimal digits name.
    fn code(&mut self) -> (r: Result<char, String>)
        requires
            old(self).wf(),
        ensures
            final(self).wf(),
            final(self).s == old(self).s,
            match r {
                Ok(c) => crate::json::grammar::code_at(old(self).s@, old(self).i as int) == Ok::<
                    (char, int),
                    crate::json::grammar::Fault,
                >((c, final(self).i as int)),
                Err(e) => crate::json::grammar::code_at(
                    old(self).s@,
                    old(self).i as int,
                ) matches Err(f) && e@ == f.message(),
            },
    {
        let i: usize = self.i;
        if self.s.len() - i < 4 {
            return Err("truncated \\u escape".to_owned());
        }
        let hex = slice_subrange(self.s, i, i + 4);
        self.i = i + 4;
        match utf8_str(hex) {
            Err(e) => {
                return Err(e);
            },
            Ok(_) => {},
        }
        match (hex_digit(hex[0]), hex_digit(hex[1]), hex_digit(hex[2]), hex_digit(hex[3])) {
            (Some(a), Some(b), Some(c), Some(d)) => {
                match char::from_u32(4096 * a + 256 * b + 16 * c + d) {
                    Some(c) => Ok(c),
                    None => Err("bad code point".to_owned()),
                }
            },
            _ => Err("bad \\u escape: invalid digit found in string".to_owned()),
        }
    }

    /// The character that an escape names, from behind the backslash on.
    fn escape(&mut self) -> (r: Result<char, String>)
        requires
            old(self).wf(),
        ensures
            final(self).wf(),
            final(self).s == old(self).s,
            match r {
                Ok(c) => crate::json::grammar::escape_at(old(self).s@, old(self).i as int) == Ok::<
                    (char, int),
                    crate::json::grammar::Fault,
                >((c, final(self).i as int)),
                Err(e) => crate::json::grammar::escape_at(
                    old(self).s@,
                    old(self).i as int,
                ) matches Err(f) && e@ == f.message(),
            },
    {
        let b: u8 = match self.peek() {
            Err(e) => {
                return Err(e);
            },
            Ok(b) => b,
        };
        self.i += 1;
        if b == 34 || b == 92 || b == 47 {
            Ok(b as char)
        } else if b == 98 {
            Ok('\u{8}')
        } else if b == 102 {
            Ok('\u{c}')
        } else if b == 110 {
            Ok('\n')
        } else if b == 114 {
            Ok('\r')
        } else if b == 116 {
            Ok('\t')
        } else if b == 117 {
            self.code()
        } else {
            let mut e = "bad escape \\".to_owned();
            e.push(b as char);
            assert(e@ =~= crate::json::grammar::Fault::Escape(b).message());
            Err(e)
        }
    }

    /// A string, quotes round it.
    fn string(&mut self) -> (r: Result<String, String>)
        requires
            old(self).wf(),
        ensures
            final(self).wf(),
            final(self).s == old(self).s,
            match r {
                Ok(v) => crate::json::grammar::string_at(old(self).s@, old(self).i as int) == Ok::<
                    (Seq<char>, int),
                    crate::json::grammar::Fault,
                >((v@, final(self).i as int)),
                Err(e) => crate::json::grammar::string_at(
                    old(self).s@,
                    old(self).i as int,
                ) matches Err(f) && e@ == f.message(),
            },
    {
        let b: u8 = match self.peek() {
            Err(e) => {
                return Err(e);
            },
            Ok(b) => b,
        };
        if b != 34 {
            return Err(message_at("expected string at ", self.i));
        }
        self.i += 1;
        let ghost start = self.i as int;
        let mut out = String::new();
        proof {
            let r = crate::json::grammar::text_at(self.s@, start);
            if let Ok((rest, _)) = r {
                assert(Seq::<char>::empty() + rest =~= rest);
            }
        }
        loop
            invariant
                self.wf(),
                self.s == old(self).s,
                crate::json::grammar::string_at(old(self).s@, old(self).i as int)
                    == crate::json::grammar::text_at(self.s@, start),
                crate::json::grammar::text_at(self.s@, start) == crate::json::grammar::text_before(
                    out@,
                    crate::json::grammar::text_at(self.s@, self.i as int),
                ),
            decreases self.s@.len() - self.i,
        {
            let ghost at = self.i as int;
            let ghost before = out@;
            let c: u8 = match self.peek() {
                Err(e) => {
                    return Err(e);
                },
                Ok(c) => c,
            };
            self.i += 1;
            if c == 34 {
                assert(out@ + Seq::<char>::empty() =~= out@);
                return Ok(out);
            } else if c == 92 {
                match self.escape() {
                    Err(e) => {
                        return Err(e);
                    },
                    Ok(c) => {
                        out.push(c);
                        proof {
                            lemma_text_before(
                                before,
                                seq![c],
                                crate::json::grammar::text_at(self.s@, self.i as int),
                            );
                            assert(before + seq![c] =~= out@);
                        }
                    },
                }
            } else {
                proof {
                    crate::json::grammar::lemma_plain_end(self.s@, at + 1);
                }
                let from: usize = self.i - 1;
                while self.i < self.s.len() && self.s[self.i] != 34 && self.s[self.i] != 92
                    invariant
                        self.wf(),
                        at < self.i,
                        self.s == old(self).s,
                        crate::json::grammar::plain_end(self.s@, at)
                            == crate::json::grammar::plain_end(self.s@, self.i as int),
                    decreases self.s@.len() - self.i,
                {
                    self.i += 1;
                }
                match utf8_str(slice_subrange(self.s, from, self.i)) {
                    Err(e) => {
                        return Err(e);
                    },
                    Ok(run) => {
                        out.append(run);
                        proof {
                            lemma_text_before(
                                before,
                                run@,
                                crate::json::grammar::text_at(self.s@, self.i as int),
                            );
                        }
                    },
                }
            }
        }
    }

    /// An array, from its opening bracket on.
    fn array(&mut self) -> (r: Result<Value, String>)
        requires
            old(self).wf(),
            old(self).i < old(self).s@.len(),
        ensures
            final(self).wf(),
            final(self).s == old(self).s,
            match r {
                Ok(v) => crate::json::grammar::array_at(old(self).s@, old(self).i as int) == Ok::<
                    (crate::json::grammar::Json, int),
                    crate::json::grammar::Fault,
                >((v@, final(self).i as int)),
                Err(e) => crate::json::grammar::array_at(
                    old(self).s@,
                    old(self).i as int,
                ) matches Err(f) && e@ == f.message(),
            },
        decreases old(self).s@.len() - old(self).i, 0int,
    {
        self.i += 1;
        let ghost start = self.i as int;
        let mut out: Vec<Value> = Vec::new();
        proof {
            crate::json::grammar::lemma_skip_space(self.s@, start);
            crate::json::grammar::lemma_skip_space_twice(self.s@, start);
        }
        self.ws();
        let b: u8 = match self.peek() {
            Err(e) => {
                return Err(e);
            },
            Ok(b) => b,
        };
        if b == 93 {
            self.i += 1;
            proof {
                crate::json::lemma_array_view(out);
                assert(crate::json::values(out@) =~= Seq::<crate::json::grammar::Json>::empty());
            }
            return Ok(Value::Arr(out));
        }
        let ghost mut at = start;
        proof {
            if let Ok((rest, _)) = crate::json::grammar::elements_at(self.s@, start) {
                assert(crate::json::values(out@) + rest =~= rest);
            }
        }
        loop
            invariant
                self.wf(),
                self.s == old(self).s,
                old(self).i < start <= at <= self.i,
                crate::json::grammar::skip_space(self.s@, self.i as int)
                    == crate::json::grammar::skip_space(self.s@, at),
                crate::json::grammar::elements_at(self.s@, start) == values_before(
                    crate::json::values(out@),
                    crate::json::grammar::elements_at(self.s@, at),
                ),
                crate::json::grammar::array_at(old(self).s@, old(self).i as int) == (
                match crate::json::grammar::elements_at(self.s@, start) {
                    Ok((items, end)) => Ok::<
                        (crate::json::grammar::Json, int),
                        crate::json::grammar::Fault,
                    >((crate::json::grammar::Json::Arr(items), end)),
                    Err(f) => Err(f),
                }),
            decreases self.s@.len() - self.i,
        {
            proof {
                crate::json::grammar::lemma_skip_space(self.s@, self.i as int);
                crate::json::grammar::value_ends_inside(
                    self.s@,
                    crate::json::grammar::skip_space(self.s@, self.i as int),
                );
            }
            self.ws();
            let v = match self.value() {
                Err(e) => {
                    return Err(e);
                },
                Ok(v) => v,
            };
            let ghost before = crate::json::values(out@);
            let ghost item = v@;
            out.push(v);
            proof {
                crate::json::grammar::lemma_skip_space(self.s@, self.i as int);
                assert(crate::json::values(out@) =~= before.push(item));
            }
            self.ws();
            let b: u8 = match self.peek() {
                Err(e) => {
                    return Err(e);
                },
                Ok(b) => b,
            };
            if b == 44 {
                self.i += 1;
                proof {
                    lemma_values_before(
                        before,
                        item,
                        crate::json::grammar::elements_at(self.s@, self.i as int),
                    );
                    at = self.i as int;
                }
            } else if b == 93 {
                self.i += 1;
                proof {
                    crate::json::lemma_array_view(out);
                    assert(before + seq![item] =~= before.push(item));
                }
                return Ok(Value::Arr(out));
            } else {
                return Err(message_at("expected , or ] at ", self.i));
            }
        }
    }

    /// An object, from its opening brace on.
    fn object(&mut self) -> (r: Result<Value, String>)
        requires
            old(self).wf(),
            old(self).i < old(self).s@.len(),
        ensures
            final(self).wf(),
            final(self).s == old(self).s,
            match r {
                Ok(v) => crate::json::grammar::object_at(old(self).s@, old(self).i as int) == Ok::<
                    (crate::json::grammar::Json, int),
                    crate::json::grammar::Fault,
                >((v@, final(self).i as int)),
                Err(e) => crate::json::grammar::object_at(
                    old(self).s@,
                    old(self).i as int,
                ) matches Err(f) && e@ == f.message(),
            },
        decreases old(self).s@.len() - old(self).i, 0int,
    {
        self.i += 1;
        let ghost start = self.i as int;
        let mut out = Object::new();
        let ghost mut raw: Seq<(Seq<char>, crate::json::grammar::Json)> = Seq::empty();
        assert(out@ =~= Seq::<(Seq<char>, crate::json::grammar::Json)>::empty());
        proof {
            crate::json::grammar::lemma_skip_space(self.s@, start);
            crate::json::grammar::lemma_skip_space_twice(self.s@, start);
        }
        self.ws();
        let b: u8 = match self.peek() {
            Err(e) => {
                return Err(e);
            },
            Ok(b) => b,
        };
        if b == 125 {
            self.i += 1;
            return Ok(Value::Obj(out));
        }
        let ghost mut at = start;
        proof {
            if let Ok((rest, _)) = crate::json::grammar::members_at(self.s@, start) {
                assert(raw + rest =~= rest);
            }
        }
        loop
            invariant
                self.wf(),
                self.s == old(self).s,
                old(self).i < start <= at <= self.i,
                out@ == crate::json::grammar::last_of_each(raw),
                crate::json::grammar::distinct_keys(out@),
                crate::json::grammar::skip_space(self.s@, self.i as int)
                    == crate::json::grammar::skip_space(self.s@, at),
                crate::json::grammar::members_at(self.s@, start) == members_before(
                    raw,
                    crate::json::grammar::members_at(self.s@, at),
                ),
                crate::json::grammar::object_at(old(self).s@, old(self).i as int) == (
                match crate::json::grammar::members_at(self.s@, start) {
                    Ok((members, end)) => Ok::<
                        (crate::json::grammar::Json, int),
                        crate::json::grammar::Fault,
                    >(
                        (
                            crate::json::grammar::Json::Obj(
                                crate::json::grammar::last_of_each(members),
                            ),
                            end,
                        ),
                    ),
                    Err(f) => Err(f),
                }),
            decreases self.s@.len() - self.i,
        {
            proof {
                crate::json::grammar::lemma_skip_space(self.s@, self.i as int);
                let from = crate::json::grammar::skip_space(self.s@, self.i as int);
                if from < self.s@.len() {
                    crate::json::grammar::lemma_text_end(self.s@, from + 1);
                }
            }
            self.ws();
            let k = match self.string() {
                Err(e) => {
                    return Err(e);
                },
                Ok(k) => k,
            };
            proof {
                crate::json::grammar::lemma_skip_space(self.s@, self.i as int);
            }
            self.ws();
            let b: u8 = match self.peek() {
                Err(e) => {
                    return Err(e);
                },
                Ok(b) => b,
            };
            if b != 58 {
                return Err(message_at("expected : at ", self.i));
            }
            self.i += 1;
            proof {
                crate::json::grammar::lemma_skip_space(self.s@, self.i as int);
                crate::json::grammar::value_ends_inside(
                    self.s@,
                    crate::json::grammar::skip_space(self.s@, self.i as int),
                );
            }
            self.ws();
            let v = match self.value() {
                Err(e) => {
                    return Err(e);
                },
                Ok(v) => v,
            };
            let ghost item = (k@, v@);
            let ghost before = raw;
            out.insert(k, v);
            proof {
                raw = before.push(item);
                assert(raw.drop_last() =~= before);
                crate::json::grammar::lemma_skip_space(self.s@, self.i as int);
            }
            self.ws();
            let b: u8 = match self.peek() {
                Err(e) => {
                    return Err(e);
                },
                Ok(b) => b,
            };
            if b == 44 {
                self.i += 1;
                proof {
                    lemma_members_before(
                        before,
                        item,
                        crate::json::grammar::members_at(self.s@, self.i as int),
                    );
                    at = self.i as int;
                }
            } else if b == 125 {
                self.i += 1;
                proof {
                    assert(before + seq![item] =~= raw);
                }
                return Ok(Value::Obj(out));
            } else {
                return Err(message_at("expected , or } at ", self.i));
            }
        }
    }

    /// Any value.
    pub(crate) fn value(&mut self) -> (r: Result<Value, String>)
        requires
            old(self).wf(),
        ensures
            final(self).wf(),
            final(self).s == old(self).s,
            match r {
                Ok(v) => crate::json::grammar::value_at(old(self).s@, old(self).i as int) == Ok::<
                    (crate::json::grammar::Json, int),
                    crate::json::grammar::Fault,
                >((v@, final(self).i as int)),
                Err(e) => crate::json::grammar::value_at(
                    old(self).s@,
                    old(self).i as int,
                ) matches Err(f) && e@ == f.message(),
            },
        decreases old(self).s@.len() - old(self).i, 1int,
    {
        let b: u8 = match self.peek() {
            Err(e) => {
                return Err(e);
            },
            Ok(b) => b,
        };
        if b == 123 {
            self.object()
        } else if b == 91 {
            self.array()
        } else if b == 34 {
            match self.string() {
                Ok(s) => Ok(Value::Str(s)),
                Err(e) => Err(e),
            }
        } else if b == 116 || b == 102 || b == 110 {
            self.literal()
        } else {
            self.number()
        }
    }
}

/// The characters whose codes are the bytes.
fn latin_string(bytes: &[u8]) -> (r: String)
    ensures
        r@ == crate::json::grammar::latin(bytes@),
{
    let mut r = String::new();
    let mut i: usize = 0;
    while i < bytes.len()
        invariant
            i <= bytes@.len(),
            r@ == crate::json::grammar::latin(bytes@).take(i as int),
        decreases bytes@.len() - i,
    {
        r.push(bytes[i] as char);
        i += 1;
        assert(r@ =~= crate::json::grammar::latin(bytes@).take(i as int));
    }
    assert(r@ =~= crate::json::grammar::latin(bytes@));
    r
}

/// Text before text before a result.
proof fn lemma_text_before(
    a: Seq<char>,
    b: Seq<char>,
    r: Result<(Seq<char>, int), crate::json::grammar::Fault>,
)
    ensures
        crate::json::grammar::text_before(a, crate::json::grammar::text_before(b, r))
            == crate::json::grammar::text_before(a + b, r),
{
    if let Ok((rest, _)) = r {
        assert(a + (b + rest) =~= (a + b) + rest);
    }
}

/// Values before a value before a result.
proof fn lemma_values_before(
    a: Seq<crate::json::grammar::Json>,
    v: crate::json::grammar::Json,
    r: Result<(Seq<crate::json::grammar::Json>, int), crate::json::grammar::Fault>,
)
    ensures
        values_before(a, crate::json::grammar::value_before(v, r)) == values_before(a.push(v), r),
{
    if let Ok((rest, _)) = r {
        assert(a + (seq![v] + rest) =~= a.push(v) + rest);
    }
}

/// Members before a member before a result.
proof fn lemma_members_before(
    a: Seq<(Seq<char>, crate::json::grammar::Json)>,
    v: (Seq<char>, crate::json::grammar::Json),
    r: Result<(Seq<(Seq<char>, crate::json::grammar::Json)>, int), crate::json::grammar::Fault>,
)
    ensures
        members_before(a, crate::json::grammar::member_before(v, r)) == members_before(
            a.push(v),
            r,
        ),
{
    if let Ok((rest, _)) = r {
        assert(a + (seq![v] + rest) =~= a.push(v) + rest);
    }
}

} // verus!
