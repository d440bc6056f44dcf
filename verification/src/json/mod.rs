//! A small JSON reader, enough for a safetensors header.
//!
//! It reads objects, arrays, strings, numbers, the booleans and `null`, and is
//! not a general JSON library: there are no escapes beyond the standard ones and
//! no surrogate pairs, and of the members of one key only the last is kept.
//! Anything outside this is an error.
pub mod digits;
pub mod grammar;
pub mod laws;
pub mod literal;
pub mod number;
pub mod parser;
pub mod readings;
pub mod written;

use crate::json::number::Number;
use crate::json::parser::Parser;
use crate::text::{same_text, text_precedes, usize_string};
use vstd::prelude::*;

verus! {

/// A JSON value.
#[derive(Debug)]
pub enum Value {
    Null,
    Bool(bool),
    Num(Number),
    Str(String),
    Arr(Vec<Value>),
    Obj(Object),
}

/// The members of an object, no key twice. They are listed in the order of their
/// keys; the order in which they stand in the text is kept beside that.
#[derive(Debug)]
pub struct Object {
    entries: Vec<(String, Value)>,
}

/// The members that a listing stands for.
pub open spec fn listing(v: Seq<(&str, &Value)>) -> Seq<(Seq<char>, crate::json::grammar::Json)> {
    Seq::new(v.len(), |i: int| (v[i].0@, v[i].1@))
}

/// The values that a list of values stands for.
pub open spec fn values(a: Seq<Value>) -> Seq<crate::json::grammar::Json> {
    Seq::new(a.len(), |i: int| a[i].view())
}

/// The members that a list of entries stands for.
pub open spec fn members(m: Seq<(String, Value)>) -> Seq<(Seq<char>, crate::json::grammar::Json)> {
    Seq::new(m.len(), |i: int| (m[i].0@, m[i].1.view()))
}

impl Object {
    /// The members, in the order in which they stand in the text.
    pub closed spec fn view(&self) -> Seq<(Seq<char>, crate::json::grammar::Json)>
        decreases self,
    {
        Seq::new(
            self.entries@.len(),
            |i: int|
                if 0 <= i < self.entries@.len() {
                    (self.entries@[i].0@, self.entries@[i].1.view())
                } else {
                    (Seq::empty(), crate::json::grammar::Json::Null)
                },
        )
    }

    /// No key stands twice.
    pub open spec fn wf(&self) -> bool {
        crate::json::grammar::distinct_keys(self@)
    }

    /// No members.
    pub fn new() -> (r: Object)
        ensures
            r.wf(),
            r@ == Seq::<(Seq<char>, crate::json::grammar::Json)>::empty(),
    {
        let r = Object { entries: Vec::new() };
        assert(r@ =~= Seq::<(Seq<char>, crate::json::grammar::Json)>::empty());
        r
    }

    /// A member, by its place in the text.
    pub fn in_text(&self, i: usize) -> (r: (&str, &Value))
        requires
            i < self@.len(),
        ensures
            (r.0@, r.1@) == self@[i as int],
    {
        let e = &self.entries[i];
        (e.0.as_str(), &e.1)
    }

    /// The members, in the order of their keys.
    pub fn entries(&self) -> (r: Vec<(&str, &Value)>)
        ensures
            listing(r@) == crate::json::grammar::by_key(self@),
    {
        let mut out: Vec<(&str, &Value)> = Vec::new();
        let mut i: usize = 0;
        assert(listing(out@) =~= self@.take(0));
        while i < self.entries.len()
            invariant
                i <= self@.len(),
                self@.len() == self.entries@.len(),
                listing(out@) == crate::json::grammar::by_key(self@.take(i as int)),
            decreases self@.len() - i,
        {
            let ghost had = listing(out@);
            let e = &self.entries[i];
            let (key, value) = (e.0.as_str(), &e.1);
            let ghost added = self@[i as int];
            assert(added == (key@, value@));
            let mut at: usize = out.len();
            assert(had.take(at as int) =~= had);
            while at > 0 && !text_precedes(out[at - 1].0, key)
                invariant
                    at <= out@.len(),
                    had == listing(out@),
                    crate::json::grammar::slot(had, key@) == crate::json::grammar::slot(
                        had.take(at as int),
                        key@,
                    ),
                decreases at,
            {
                assert(had.take(at as int).drop_last() =~= had.take(at - 1));
                assert(had.take(at as int).last() == had[at - 1]);
                at -= 1;
            }
            assert(at > 0 ==> had.take(at as int).last() == had[at - 1]);
            assert(at == crate::json::grammar::slot(had, key@));
            out.insert(at, (key, value));
            proof {
                assert(listing(out@) =~= had.insert(at as int, added));
                assert(self@.take(i + 1).drop_last() =~= self@.take(i as int));
            }
            i += 1;
        }
        assert(self@.take(self@.len() as int) =~= self@);
        out
    }

    /// How many members there are.
    pub fn len(&self) -> (r: usize)
        ensures
            r == self@.len(),
    {
        self.entries.len()
    }

    /// Is there no member?
    pub fn is_empty(&self) -> (r: bool)
        ensures
            r == (self@.len() == 0),
    {
        self.entries.len() == 0
    }

    /// The value under a key.
    pub fn get(&self, key: &str) -> (r: Option<&Value>)
        ensures
            match r {
                Some(v) => crate::json::grammar::lookup(self@, key@) == Some(v@),
                None => crate::json::grammar::lookup(self@, key@) is None,
            },
    {
        let mut i: usize = 0;
        assert(self@.skip(0) =~= self@);
        while i < self.entries.len()
            invariant
                i <= self@.len(),
                crate::json::grammar::lookup(self@, key@) == crate::json::grammar::lookup(
                    self@.skip(i as int),
                    key@,
                ),
            decreases self@.len() - i,
        {
            assert(self@.skip(i as int).drop_first() =~= self@.skip(i + 1));
            if same_text(self.entries[i].0.as_str(), key) {
                return Some(&self.entries[i].1);
            }
            i += 1;
        }
        None
    }

    /// Puts a member behind the others, in place of an earlier one of its key.
    pub fn insert(&mut self, key: String, value: Value)
        requires
            old(self).wf(),
        ensures
            final(self)@ == crate::json::grammar::with_member(old(self)@, key@, value@),
            final(self).wf(),
    {
        let ghost before = self@;
        proof {
            crate::json::grammar::lemma_with_member(before, key@, value@);
        }
        let mut i: usize = 0;
        while i < self.entries.len() && !same_text(self.entries[i].0.as_str(), key.as_str())
            invariant
                before == self@,
                i <= self@.len(),
                forall|j: int| 0 <= j < i ==> (#[trigger] before[j]).0 != key@,
            ensures
                i < before.len() ==> before[i as int].0 == key@,
            decreases self@.len() - i,
        {
            i += 1;
        }
        if i < self.entries.len() {
            proof {
                crate::json::grammar::lemma_without_at(before, i as int);
            }
            let removed = self.entries.remove(i);
            assert(self@ =~= before.remove(i as int));
        } else {
            proof {
                crate::json::grammar::lemma_without_absent(before, key@);
            }
        }
        let ghost kept = self@;
        self.entries.push((key, value));
        assert(self@ =~= kept.push((key@, value@)));
    }
}

impl Value {
    /// The value that this is.
    pub open spec fn view(&self) -> crate::json::grammar::Json
        decreases self,
    {
        match self {
            Value::Null => crate::json::grammar::Json::Null,
            Value::Bool(b) => crate::json::grammar::Json::Bool(*b),
            Value::Num(n) => crate::json::grammar::Json::Num(*n),
            Value::Str(s) => crate::json::grammar::Json::Str(s@),
            Value::Arr(a) => crate::json::grammar::Json::Arr(
                Seq::new(
                    a@.len(),
                    |i: int|
                        if 0 <= i < a@.len() {
                            a@[i].view()
                        } else {
                            crate::json::grammar::Json::Null
                        },
                ),
            ),
            Value::Obj(o) => crate::json::grammar::Json::Obj(o.view()),
        }
    }

    /// The members, if this is an object.
    pub fn as_object(&self) -> (r: Option<&Object>)
        ensures
            match r {
                Some(o) => *self == Value::Obj(*o) && self@ == crate::json::grammar::Json::Obj(o@),
                None => !(self@ is Obj),
            },
    {
        match self {
            Value::Obj(o) => {
                Some(o)
            },
            _ => None,
        }
    }

    /// The elements, if this is an array.
    pub fn as_array(&self) -> (r: Option<&Vec<Value>>)
        ensures
            match r {
                Some(a) => *self == Value::Arr(*a) && self@ == crate::json::grammar::Json::Arr(
                    values(a@),
                ),
                None => !(self@ is Arr),
            },
    {
        match self {
            Value::Arr(a) => {
                proof {
                    lemma_array_view(*a);
                }
                Some(a)
            },
            _ => None,
        }
    }

    /// The text, if this is a string.
    pub fn as_str(&self) -> (r: Option<&str>)
        ensures
            match r {
                Some(s) => self@ == crate::json::grammar::Json::Str(s@),
                None => !(self@ is Str),
            },
    {
        match self {
            Value::Str(s) => Some(s.as_str()),
            _ => None,
        }
    }

    /// The integer, if this is a number that is one, not negative and not beyond
    /// the largest `usize`.
    pub fn as_usize(&self) -> (r: Option<usize>)
        ensures
            r == crate::json::grammar::usize_of(self@),
    {
        match self {
            Value::Num(n) => n.as_usize(),
            _ => None,
        }
    }

    /// The value under a key, if this is an object that has it.
    pub fn get(&self, key: &str) -> (r: Option<&Value>)
        ensures
            match r {
                Some(v) => crate::json::grammar::member(self@, key@) == Some(v@),
                None => crate::json::grammar::member(self@, key@) is None,
            },
    {
        match self.as_object() {
            Some(o) => o.get(key),
            None => None,
        }
    }
}

/// An array stands for what its elements stand for.
pub proof fn lemma_array_view(a: Vec<Value>)
    ensures
        Value::Arr(a)@ == crate::json::grammar::Json::Arr(values(a@)),
{
    assert(Value::Arr(a)@->Arr_0 =~= values(a@));
}

/// A copy of a value.
fn copy_of(v: &Value) -> (r: Value)
    ensures
        r@ == v@,
    decreases v,
{
    match v {
        Value::Null => Value::Null,
        Value::Bool(b) => Value::Bool(*b),
        Value::Num(n) => Value::Num(*n),
        Value::Str(s) => Value::Str(s.as_str().to_owned()),
        Value::Arr(a) => {
            let mut out: Vec<Value> = Vec::new();
            let mut i: usize = 0;
            while i < a.len()
                invariant
                    i <= a@.len(),
                    *v == Value::Arr(*a),
                    values(out@) == values(a@).take(i as int),
                decreases a@.len() - i,
            {
                let ghost had = values(out@);
                assert(decreases_to!(v => v->Arr_0));
                assert(decreases_to!(a@ => a@[i as int]));
                let item = copy_of(&a[i]);
                let ghost added = item@;
                out.push(item);
                i += 1;
                assert(values(out@) =~= had.push(added));
                assert(values(out@) =~= values(a@).take(i as int));
            }
            proof {
                lemma_array_view(*a);
                lemma_array_view(out);
                assert(values(a@).take(a@.len() as int) =~= values(a@));
            }
            Value::Arr(out)
        },
        Value::Obj(o) => {
            let mut out: Vec<(String, Value)> = Vec::new();
            let mut i: usize = 0;
            while i < o.entries.len()
                invariant
                    i <= o.entries@.len(),
                    *v == Value::Obj(*o),
                    members(out@) == o@.take(i as int),
                decreases o.entries@.len() - i,
            {
                let ghost had = members(out@);
                let key = o.entries[i].0.as_str().to_owned();
                assert(decreases_to!(v => v->Obj_0));
                assert(decreases_to!(o => o.entries));
                assert(decreases_to!(o.entries@ => o.entries@[i as int]));
                assert(decreases_to!(o.entries@[i as int] => o.entries@[i as int].1));
                let item = copy_of(&o.entries[i].1);
                let ghost added = (key@, item@);
                out.push((key, item));
                i += 1;
                assert(members(out@) =~= had.push(added));
                assert(members(out@) =~= o@.take(i as int));
            }
            let copy = Object { entries: out };
            proof {
                assert(copy@ =~= members(copy.entries@));
                assert(o@.take(o@.len() as int) =~= o@);
            }
            Value::Obj(copy)
        },
    }
}

impl Clone for Value {
    fn clone(&self) -> (r: Value)
        ensures
            r@ == self@,
    {
        copy_of(self)
    }
}

/// Are two values the same?
fn same_value(a: &Value, b: &Value) -> (r: bool)
    ensures
        r == crate::json::grammar::same(a@, b@),
    decreases a,
{
    match (a, b) {
        (Value::Null, Value::Null) => true,
        (Value::Bool(x), Value::Bool(y)) => *x == *y,
        (Value::Num(x), Value::Num(y)) => *x == *y,
        (Value::Str(x), Value::Str(y)) => same_text(x.as_str(), y.as_str()),
        (Value::Arr(x), Value::Arr(y)) => {
            proof {
                lemma_array_view(*x);
                lemma_array_view(*y);
            }
            if x.len() != y.len() {
                return false;
            }
            let mut i: usize = 0;
            while i < x.len()
                invariant
                    i <= x@.len(),
                    x@.len() == y@.len(),
                    *a == Value::Arr(*x),
                    a@ == crate::json::grammar::Json::Arr(values(x@)),
                    b@ == crate::json::grammar::Json::Arr(values(y@)),
                    forall|j: int|
                        0 <= j < i ==> crate::json::grammar::same(
                            #[trigger] values(x@)[j],
                            values(y@)[j],
                        ),
                decreases x@.len() - i,
            {
                assert(decreases_to!(a => a->Arr_0));
                assert(decreases_to!(x@ => x@[i as int]));
                if !same_value(&x[i], &y[i]) {
                    assert(!crate::json::grammar::same(
                        values(x@)[i as int],
                        values(y@)[i as int],
                    ));
                    return false;
                }
                i += 1;
            }
            true
        },
        (Value::Obj(x), Value::Obj(y)) => {
            same_members(x, y)
        },
        _ => false,
    }
}

/// Are the members of two objects the same, in whatever order?
fn same_members(x: &Object, y: &Object) -> (r: bool)
    ensures
        r == crate::json::grammar::same(
            crate::json::grammar::Json::Obj(x@),
            crate::json::grammar::Json::Obj(y@),
        ),
    decreases x,
{
    if x.entries.len() != y.entries.len() {
        return false;
    }
    let mut i: usize = 0;
    while i < x.entries.len()
        invariant
            i <= x@.len(),
            x@.len() == y@.len(),
            forall|j: int|
                0 <= j < i ==> (crate::json::grammar::lookup(y@, (#[trigger] x@[j]).0) matches Some(
                    v,
                ) && crate::json::grammar::same(x@[j].1, v)),
        decreases x@.len() - i,
    {
        assert(decreases_to!(x => x.entries));
        assert(decreases_to!(x.entries@ => x.entries@[i as int]));
        assert(decreases_to!(x.entries@[i as int] => x.entries@[i as int].1));
        let found = match y.get(x.entries[i].0.as_str()) {
            Some(v) => same_value(&x.entries[i].1, v),
            None => false,
        };
        if !found {
            assert(!(crate::json::grammar::lookup(y@, x@[i as int].0) matches Some(v)
                && crate::json::grammar::same(x@[i as int].1, v)));
            return false;
        }
        i += 1;
    }
    true
}

impl PartialEq for Value {
    /// Are the values the same? The order of the members of an object is not looked
    /// at.
    fn eq(&self, other: &Value) -> (r: bool) {
        same_value(self, other)
    }
}

impl vstd::std_specs::cmp::PartialEqSpecImpl for Value {
    open spec fn obeys_eq_spec() -> bool {
        true
    }

    open spec fn eq_spec(&self, other: &Value) -> bool {
        crate::json::grammar::same(self@, other@)
    }
}

impl PartialEq for Object {
    /// Are the members the same, in whatever order?
    fn eq(&self, other: &Object) -> (r: bool) {
        same_members(self, other)
    }
}

impl vstd::std_specs::cmp::PartialEqSpecImpl for Object {
    open spec fn obeys_eq_spec() -> bool {
        true
    }

    open spec fn eq_spec(&self, other: &Object) -> bool {
        crate::json::grammar::same(
            crate::json::grammar::Json::Obj(self@),
            crate::json::grammar::Json::Obj(other@),
        )
    }
}

/// Reads a JSON text: one value with nothing but spaces round it.
pub fn parse(s: &[u8]) -> (r: Result<Value, String>)
    ensures
        match r {
            Ok(v) => crate::json::grammar::document(s@) == Ok::<
                crate::json::grammar::Json,
                crate::json::grammar::Fault,
            >(v@),
            Err(e) => crate::json::grammar::document(s@) matches Err(f) && e@ == f.message(),
        },
{
    let mut p = Parser { s, i: 0 };
    assert(s.len() <= usize::MAX);
    proof {
        crate::json::grammar::lemma_skip_space(s@, 0);
        crate::json::grammar::value_ends_inside(
            s@,
            crate::json::grammar::skip_space(s@, 0),
        );
    }
    p.ws();
    match p.value() {
        Err(e) => Err(e),
        Ok(v) => {
            proof {
                crate::json::grammar::lemma_skip_space(s@, p.i as int);
            }
            p.ws();
            if p.i != s.len() {
                return Err(message_at("trailing bytes after JSON value at ", p.i));
            }
            Ok(v)
        },
    }
}

/// A message that ends in a position.
pub(crate) fn message_at(what: &str, at: usize) -> (r: String)
    ensures
        r@ == what@ + crate::text::decimal(at as nat),
{
    let mut r = what.to_owned();
    let d = usize_string(at);
    r.append(d.as_str());
    r
}

} // verus!
