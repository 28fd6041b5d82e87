//! JSON values.

use vstd::prelude::*;
use crate::entries::{
    last_at, lemma_last_at, lemma_last_at_is, lookup, names_distinct, put, remove_named, set_named,
    value_named, viewed, without,
};
use crate::ieee::{Double, Real};
use crate::text::{decimal, decimal_of, same_text, signed_decimal, signed_decimal_of};

verus! {

/// How a number is written: a natural number, a negative one, or a decimal fraction, which is
/// known by its text.
pub enum NumberForm {
    Natural(u64),
    Negative(i64),
    Decimal(String),
}

/// A JSON number: how it is written, and the double and the single precision number next to it.
pub struct Number {
    pub form: NumberForm,
    pub double: Double,
    pub single: Real,
}

pub enum Json {
    Null,
    Bool(bool),
    Number(Number),
    Text(String),
    Array(Vec<Json>),
    Object(Vec<(String, Json)>),
}

pub enum NumberFormV {
    Natural(u64),
    Negative(i64),
    Decimal(Seq<char>),
}

pub struct NumberV {
    pub form: NumberFormV,
    pub double: Double,
    pub single: Real,
}

/// A JSON value as a mathematical object.
#[verifier::ext_equal]
pub enum JsonV {
    Null,
    Bool(bool),
    Number(NumberV),
    Text(Seq<char>),
    Array(Seq<JsonV>),
    Object(Seq<(Seq<char>, JsonV)>),
}

impl NumberV {
    /// The number as an unsigned integer, if it is one.
    pub open spec fn natural(self) -> Option<u64> {
        match self.form {
            NumberFormV::Natural(n) => Some(n),
            _ => None,
        }
    }

    /// The number as a signed integer, if it is one in that range.
    pub open spec fn integer(self) -> Option<i64> {
        match self.form {
            NumberFormV::Natural(n) => if n <= i64::MAX {
                Some(n as i64)
            } else {
                None
            },
            NumberFormV::Negative(n) => Some(n),
            NumberFormV::Decimal(_) => None,
        }
    }

    /// The number as it is written.
    pub open spec fn text(self) -> Seq<char> {
        match self.form {
            NumberFormV::Natural(n) => decimal_of(n as nat),
            NumberFormV::Negative(n) => signed_decimal_of(n as int),
            NumberFormV::Decimal(t) => t,
        }
    }

    /// Numbers are equal if they are written in the same form with the same value.
    pub open spec fn same(self, other: NumberV) -> bool {
        match (self.form, other.form) {
            (NumberFormV::Natural(a), NumberFormV::Natural(b)) => a == b,
            (NumberFormV::Negative(a), NumberFormV::Negative(b)) => a == b,
            (NumberFormV::Decimal(_), NumberFormV::Decimal(_)) => self.double.same(other.double),
            _ => false,
        }
    }
}

impl View for Number {
    type V = NumberV;

    open spec fn view(&self) -> NumberV {
        NumberV {
            form: match self.form {
                NumberForm::Natural(n) => NumberFormV::Natural(n),
                NumberForm::Negative(n) => NumberFormV::Negative(n),
                NumberForm::Decimal(t) => NumberFormV::Decimal(t@),
            },
            double: self.double,
            single: self.single,
        }
    }
}

impl Clone for Number {
    fn clone(&self) -> (r: Self)
        ensures
            r@ == self@,
    {
        let form = match &self.form {
            NumberForm::Natural(n) => NumberForm::Natural(*n),
            NumberForm::Negative(n) => NumberForm::Negative(*n),
            NumberForm::Decimal(t) => NumberForm::Decimal(t.clone()),
        };
        Number { form, double: self.double, single: self.single }
    }
}

impl Number {
    pub fn as_u64(&self) -> (r: Option<u64>)
        ensures
            r == self@.natural(),
    {
        match &self.form {
            NumberForm::Natural(n) => Some(*n),
            _ => None,
        }
    }

    pub fn as_i64(&self) -> (r: Option<i64>)
        ensures
            r == self@.integer(),
    {
        match &self.form {
            NumberForm::Natural(n) => if *n <= i64::MAX as u64 {
                Some(*n as i64)
            } else {
                None
            },
            NumberForm::Negative(n) => Some(*n),
            NumberForm::Decimal(_) => None,
        }
    }

    pub fn to_text(&self) -> (r: String)
        ensures
            r@ == self@.text(),
    {
        match &self.form {
            NumberForm::Natural(n) => decimal(*n),
            NumberForm::Negative(n) => signed_decimal(*n),
            NumberForm::Decimal(t) => t.clone(),
        }
    }

    pub fn same(&self, other: &Number) -> (r: bool)
        ensures
            r == self@.same(other@),
    {
        match (&self.form, &other.form) {
            (NumberForm::Natural(a), NumberForm::Natural(b)) => *a == *b,
            (NumberForm::Negative(a), NumberForm::Negative(b)) => *a == *b,
            (NumberForm::Decimal(_), NumberForm::Decimal(_)) => self.double.equals(other.double),
            _ => false,
        }
    }
}

/// The members of a list of values.
pub open spec fn items(v: Seq<Json>) -> Seq<JsonV> {
    Seq::new(v.len(), |i: int| v[i]@)
}

/// The members of an object.
pub open spec fn fields(v: Seq<(String, Json)>) -> Seq<(Seq<char>, JsonV)> {
    Seq::new(v.len(), |i: int| (v[i].0@, v[i].1@))
}

impl Json {
    pub open spec fn model(self) -> JsonV
        decreases self,
    {
        match self {
            Json::Null => JsonV::Null,
            Json::Bool(b) => JsonV::Bool(b),
            Json::Number(n) => JsonV::Number(n@),
            Json::Text(t) => JsonV::Text(t@),
            Json::Array(v) => JsonV::Array(
                Seq::new(
                    v@.len(),
                    |i: int|
                        if 0 <= i < v@.len() {
                            v@[i].model()
                        } else {
                            JsonV::Null
                        },
                ),
            ),
            Json::Object(v) => JsonV::Object(
                Seq::new(
                    v@.len(),
                    |i: int|
                        if 0 <= i < v@.len() {
                            (v@[i].0@, v@[i].1.model())
                        } else {
                            (Seq::empty(), JsonV::Null)
                        },
                ),
            ),
        }
    }
}

impl View for Json {
    type V = JsonV;

    open spec fn view(&self) -> JsonV {
        self.model()
    }
}

pub proof fn lemma_array(v: Vec<Json>)
    ensures
        Json::Array(v)@ == JsonV::Array(items(v@)),
{
    assert(Json::Array(v)@->Array_0 =~= items(v@));
}

pub proof fn lemma_object(v: Vec<(String, Json)>)
    ensures
        Json::Object(v)@ == JsonV::Object(fields(v@)),
{
    assert(Json::Object(v)@->Object_0 =~= fields(v@));
}

impl JsonV {
    /// The member of an object that has a name; nothing else has members.
    pub open spec fn get(self, key: Seq<char>) -> Option<JsonV> {
        match self {
            JsonV::Object(e) => lookup(e, key),
            _ => None,
        }
    }

    pub open spec fn text(self) -> Option<Seq<char>> {
        match self {
            JsonV::Text(t) => Some(t),
            _ => None,
        }
    }

    pub open spec fn array(self) -> Option<Seq<JsonV>> {
        match self {
            JsonV::Array(a) => Some(a),
            _ => None,
        }
    }

    pub open spec fn number(self) -> Option<NumberV> {
        match self {
            JsonV::Number(n) => Some(n),
            _ => None,
        }
    }

    /// The member with a name, if it is a text.
    pub open spec fn get_text(self, key: Seq<char>) -> Option<Seq<char>> {
        match self.get(key) {
            Some(v) => v.text(),
            None => None,
        }
    }

    /// The member with a name, if it is an array.
    pub open spec fn get_array(self, key: Seq<char>) -> Option<Seq<JsonV>> {
        match self.get(key) {
            Some(v) => v.array(),
            None => None,
        }
    }

    /// The member with a name, if it is an object.
    pub open spec fn get_object(self, key: Seq<char>) -> Option<JsonV> {
        match self.get(key) {
            Some(v) => if v is Object {
                Some(v)
            } else {
                None
            },
            None => None,
        }
    }

    /// The member with a name, if it is a number.
    pub open spec fn get_number(self, key: Seq<char>) -> Option<NumberV> {
        match self.get(key) {
            Some(v) => v.number(),
            None => None,
        }
    }

    /// Equality of JSON values: the same kind with the same contents. Two objects are equal if
    /// they have equally many members and each member of the one equals the member of that name
    /// in the other.
    pub open spec fn same(self, other: JsonV) -> bool
        decreases self,
    {
        match (self, other) {
            (JsonV::Null, JsonV::Null) => true,
            (JsonV::Bool(a), JsonV::Bool(b)) => a == b,
            (JsonV::Number(a), JsonV::Number(b)) => a.same(b),
            (JsonV::Text(a), JsonV::Text(b)) => a == b,
            (JsonV::Array(a), JsonV::Array(b)) => a.len() == b.len() && forall|i: int|
                0 <= i < a.len() ==> (#[trigger] a[i]).same(b[i]),
            (JsonV::Object(a), JsonV::Object(b)) => a.len() == b.len() && forall|i: int|
                0 <= i < a.len() ==> match lookup(b, (#[trigger] a[i]).0) {
                    Some(v) => a[i].1.same(v),
                    None => false,
                },
            _ => false,
        }
    }
}

/// The view of a value that may be there.
pub open spec fn seen(r: Option<&Json>) -> Option<JsonV> {
    match r {
        Some(j) => Some(j@),
        None => None,
    }
}

/// Finds the member with a name among the members of an object.
pub fn member<'a>(v: &'a Vec<(String, Json)>, key: &str) -> (r: Option<&'a Json>)
    ensures
        seen(r) == lookup(fields(v@), key@),
{
    let ghost f = |j: Json| j@;
    assert(fields(v@) =~= viewed(v@, f));
    value_named::<Json, JsonV>(v, key, Ghost(f))
}

impl Json {
    pub fn get<'a>(&'a self, key: &str) -> (r: Option<&'a Json>)
        ensures
            seen(r) == self@.get(key@),
    {
        match self {
            Json::Object(v) => {
                proof {
                    lemma_object(*v);
                }
                member(v, key)
            },
            _ => None,
        }
    }

    pub fn as_text<'a>(&'a self) -> (r: Option<&'a String>)
        ensures
            self@.text() == match r {
                Some(t) => Some(t@),
                None => None,
            },
    {
        match self {
            Json::Text(t) => Some(t),
            _ => None,
        }
    }

    pub fn as_array<'a>(&'a self) -> (r: Option<&'a Vec<Json>>)
        ensures
            self@.array() == match r {
                Some(v) => Some(items(v@)),
                None => None,
            },
            match r {
                Some(v) => *self == Json::Array(*v),
                None => true,
            },
    {
        match self {
            Json::Array(v) => {
                proof {
                    lemma_array(*v);
                }
                Some(v)
            },
            _ => None,
        }
    }

    pub fn is_object(&self) -> (r: bool)
        ensures
            r == (self@ is Object),
    {
        match self {
            Json::Object(_) => true,
            _ => false,
        }
    }

    pub fn as_number<'a>(&'a self) -> (r: Option<&'a Number>)
        ensures
            self@.number() == match r {
                Some(n) => Some(n@),
                None => None,
            },
    {
        match self {
            Json::Number(n) => Some(n),
            _ => None,
        }
    }

    pub fn get_text<'a>(&'a self, key: &str) -> (r: Option<&'a String>)
        ensures
            self@.get_text(key@) == match r {
                Some(t) => Some(t@),
                None => None,
            },
    {
        match self.get(key) {
            Some(v) => v.as_text(),
            None => None,
        }
    }

    pub fn get_array<'a>(&'a self, key: &str) -> (r: Option<&'a Vec<Json>>)
        ensures
            self@.get_array(key@) == match r {
                Some(v) => Some(items(v@)),
                None => None,
            },
    {
        match self.get(key) {
            Some(v) => v.as_array(),
            None => None,
        }
    }

    pub fn get_object<'a>(&'a self, key: &str) -> (r: Option<&'a Json>)
        ensures
            seen(r) == self@.get_object(key@),
    {
        match self.get(key) {
            Some(v) => if v.is_object() {
                Some(v)
            } else {
                None
            },
            None => None,
        }
    }

    pub fn get_number<'a>(&'a self, key: &str) -> (r: Option<&'a Number>)
        ensures
            self@.get_number(key@) == match r {
                Some(n) => Some(n@),
                None => None,
            },
    {
        match self.get(key) {
            Some(v) => v.as_number(),
            None => None,
        }
    }

    /// Whether two values are equal.
    pub fn same(&self, other: &Json) -> (r: bool)
        ensures
            r == self@.same(other@),
        decreases self,
    {
        match (self, other) {
            (Json::Null, Json::Null) => true,
            (Json::Bool(a), Json::Bool(b)) => *a == *b,
            (Json::Number(a), Json::Number(b)) => a.same(b),
            (Json::Text(a), Json::Text(b)) => same_text(a.as_str(), b.as_str()),
            (Json::Array(a), Json::Array(b)) => {
                proof {
                    lemma_array(*a);
                    lemma_array(*b);
                }
                if a.len() != b.len() {
                    return false;
                }
                let mut i: usize = 0;
                while i < a.len()
                    invariant
                        *self == Json::Array(*a),
                        i <= a@.len(),
                        a@.len() == b@.len(),
                        self@ == JsonV::Array(items(a@)),
                        other@ == JsonV::Array(items(b@)),
                        forall|j: int| 0 <= j < i ==> (#[trigger] items(a@)[j]).same(items(b@)[j]),
                    decreases a@.len() - i,
                {
                    assert(decreases_to!(*self => *a));
                    assert(decreases_to!(*a => a@));
                    assert(decreases_to!(a@ => a@[i as int]));
                    if !a[i].same(&b[i]) {
                        assert(!items(a@)[i as int].same(items(b@)[i as int]));
                        return false;
                    }
                    i += 1;
                }
                true
            },
            (Json::Object(a), Json::Object(b)) => {
                proof {
                    lemma_object(*a);
                    lemma_object(*b);
                }
                if a.len() != b.len() {
                    return false;
                }
                let mut i: usize = 0;
                while i < a.len()
                    invariant
                        *self == Json::Object(*a),
                        i <= a@.len(),
                        a@.len() == b@.len(),
                        self@ == JsonV::Object(fields(a@)),
                        other@ == JsonV::Object(fields(b@)),
                        forall|j: int|
                            0 <= j < i ==> match lookup(fields(b@), (#[trigger] fields(a@)[j]).0) {
                                Some(v) => fields(a@)[j].1.same(v),
                                None => false,
                            },
                    decreases a@.len() - i,
                {
                    assert(decreases_to!(*self => *a));
                    assert(decreases_to!(*a => a@));
                    assert(decreases_to!(a@ => a@[i as int]));
                    assert(decreases_to!(a@[i as int] => a@[i as int].1));
                    let ghost here = fields(a@)[i as int];
                    match member(b, a[i].0.as_str()) {
                        Some(v) => {
                            if !a[i].1.same(v) {
                                assert(!here.1.same(v@));
                                return false;
                            }
                        },
                        None => {
                            assert(lookup(fields(b@), here.0) is None);
                            return false;
                        },
                    }
                    i += 1;
                }
                true
            },
            _ => false,
        }
    }
}

impl Clone for Json {
    fn clone(&self) -> (r: Self)
        ensures
            r@ == self@,
        decreases self,
    {
        match self {
            Json::Null => Json::Null,
            Json::Bool(b) => Json::Bool(*b),
            Json::Number(n) => Json::Number(n.clone()),
            Json::Text(t) => Json::Text(t.clone()),
            Json::Array(v) => {
                let mut w: Vec<Json> = Vec::new();
                let mut i: usize = 0;
                while i < v.len()
                    invariant
                        *self == Json::Array(*v),
                        i <= v@.len(),
                        w@.len() == i,
                        forall|j: int| 0 <= j < i ==> (#[trigger] w@[j])@ == v@[j]@,
                    decreases v@.len() - i,
                {
                    assert(decreases_to!(*self => (*self)->Array_0));
                    assert(decreases_to!(*v => v@));
                    assert(decreases_to!(v@ => v@[i as int]));
                    w.push(v[i].clone());
                    i += 1;
                }
                proof {
                    lemma_array(*v);
                    lemma_array(w);
                    assert(items(w@) =~= items(v@));
                }
                Json::Array(w)
            },
            Json::Object(v) => {
                let mut w: Vec<(String, Json)> = Vec::new();
                let mut i: usize = 0;
                while i < v.len()
                    invariant
                        *self == Json::Object(*v),
                        i <= v@.len(),
                        w@.len() == i,
                        forall|j: int| 0 <= j < i ==> (#[trigger] w@[j]).0@ == v@[j].0@ && w@[j].1@ == v@[j].1@,
                    decreases v@.len() - i,
                {
                    assert(decreases_to!(*self => (*self)->Object_0));
                    assert(decreases_to!(*v => v@));
                    assert(decreases_to!(v@ => v@[i as int]));
                    assert(decreases_to!(v@[i as int] => v@[i as int].1));
                    w.push((v[i].0.clone(), v[i].1.clone()));
                    i += 1;
                }
                proof {
                    lemma_object(*v);
                    lemma_object(w);
                    assert(fields(w@) =~= fields(v@));
                }
                Json::Object(w)
            },
        }
    }
}

/// The members of an object after those of another were put in, one after the other.
pub open spec fn put_all(a: Seq<(Seq<char>, JsonV)>, b: Seq<(Seq<char>, JsonV)>) -> Seq<(Seq<char>, JsonV)>
    decreases b.len(),
{
    if b.len() == 0 {
        a
    } else {
        put(put_all(a, b.drop_last()), b.last().0, b.last().1)
    }
}

/// An object with the members of another put in. Where one of the two is no object nothing
/// changes.
pub open spec fn merged(existing: JsonV, new: JsonV) -> JsonV {
    match (existing, new) {
        (JsonV::Object(a), JsonV::Object(b)) => JsonV::Object(put_all(a, b)),
        _ => existing,
    }
}

/// The members of an object without those that have one of several names.
pub open spec fn without_all(a: Seq<(Seq<char>, JsonV)>, keys: Seq<Seq<char>>) -> Seq<(Seq<char>, JsonV)>
    decreases keys.len(),
{
    if keys.len() == 0 {
        a
    } else {
        without(without_all(a, keys.drop_last()), keys.last())
    }
}

/// A value without the members that have one of several names.
pub open spec fn stripped(value: JsonV, keys: Seq<Seq<char>>) -> JsonV {
    match value {
        JsonV::Object(a) => JsonV::Object(without_all(a, keys)),
        _ => value,
    }
}

/// The texts in a list.
pub open spec fn texts(v: Seq<String>) -> Seq<Seq<char>> {
    Seq::new(v.len(), |i: int| v[i]@)
}

impl Json {
    /// Puts the members of another object in.
    pub fn merge(self, new: &Json) -> (r: Json)
        ensures
            r@ == merged(self@, new@),
    {
        match (self, new) {
            (Json::Object(a), Json::Object(b)) => {
                let ghost start = fields(a@);
                let ghost given = fields(b@);
                let ghost f = |j: Json| j@;
                proof {
                    lemma_object(a);
                    lemma_object(*b);
                }
                let mut all = a;
                let mut i: usize = 0;
                assert(given.take(0) =~= Seq::<(Seq<char>, JsonV)>::empty());
                while i < b.len()
                    invariant
                        i <= b@.len(),
                        given == fields(b@),
                        f == |j: Json| j@,
                        fields(all@) == put_all(start, given.take(i as int)),
                    decreases b@.len() - i,
                {
                    assert(given.take(i + 1).drop_last() =~= given.take(i as int));
                    assert(given.take(i + 1).last() == given[i as int]);
                    assert(fields(all@) =~= viewed(all@, f));
                    set_named::<Json, JsonV>(&mut all, b[i].0.clone(), b[i].1.clone(), Ghost(f));
                    assert(fields(all@) =~= viewed(all@, f));
                    i += 1;
                }
                assert(given.take(i as int) =~= given);
                proof {
                    lemma_object(all);
                }
                Json::Object(all)
            },
            (other, _) => other,
        }
    }

    /// Takes out the members that have one of several names.
    pub fn strip(self, keys: &[String]) -> (r: Json)
        ensures
            r@ == stripped(self@, texts(keys@)),
    {
        match self {
            Json::Object(a) => {
                let ghost start = fields(a@);
                let ghost given = texts(keys@);
                let ghost f = |j: Json| j@;
                proof {
                    lemma_object(a);
                }
                let mut all = a;
                let mut i: usize = 0;
                assert(given.take(0) =~= Seq::<Seq<char>>::empty());
                while i < keys.len()
                    invariant
                        i <= keys@.len(),
                        given == texts(keys@),
                        f == |j: Json| j@,
                        fields(all@) == without_all(start, given.take(i as int)),
                    decreases keys@.len() - i,
                {
                    assert(given.take(i + 1).drop_last() =~= given.take(i as int));
                    assert(given.take(i + 1).last() == given[i as int]);
                    assert(fields(all@) =~= viewed(all@, f));
                    remove_named::<Json, JsonV>(&mut all, keys[i].as_str(), Ghost(f));
                    assert(fields(all@) =~= viewed(all@, f));
                    i += 1;
                }
                assert(given.take(i as int) =~= given);
                proof {
                    lemma_object(all);
                }
                Json::Object(all)
            },
            other => other,
        }
    }
}

// ---------------------------------------------------------------------------------------------
// Laws

impl JsonV {
    /// No object in the value, at any depth, has a name twice.
    pub open spec fn names_once(self) -> bool
        decreases self,
    {
        match self {
            JsonV::Array(a) => forall|i: int| 0 <= i < a.len() ==> (#[trigger] a[i]).names_once(),
            JsonV::Object(e) => names_distinct(e) && forall|i: int|
                0 <= i < e.len() ==> (#[trigger] e[i]).1.names_once(),
            _ => true,
        }
    }
}

/// The names of the members of an object.
spec fn names_of(e: Seq<(Seq<char>, JsonV)>) -> Seq<Seq<char>> {
    Seq::new(e.len(), |i: int| e[i].0)
}

/// With distinct names each name stands for the one member that has it.
pub proof fn lemma_distinct_lookup(e: Seq<(Seq<char>, JsonV)>, i: int)
    requires
        names_distinct(e),
        0 <= i < e.len(),
    ensures
        lookup(e, e[i].0) == Some(e[i].1),
{
    assert forall|j: int| i < j < e.len() implies (#[trigger] e[j]).0 != e[i].0 by {
        assert(e[i].0 != e[j].0);
    }
    lemma_last_at_is(e, e[i].0, i);
}

/// Objects with equally many members, whose names are distinct, have the same names once all
/// names of the one are names of the other.
proof fn lemma_same_names(a: Seq<(Seq<char>, JsonV)>, b: Seq<(Seq<char>, JsonV)>, j: int)
    requires
        names_distinct(a),
        names_distinct(b),
        a.len() == b.len(),
        forall|i: int| 0 <= i < a.len() ==> lookup(b, (#[trigger] a[i]).0) is Some,
        0 <= j < b.len(),
    ensures
        exists|i: int| 0 <= i < a.len() && (#[trigger] a[i]).0 == b[j].0,
{
    let x = names_of(a);
    let y = names_of(b);
    assert(x.no_duplicates()) by {
        assert forall|p: int, q: int| 0 <= p < x.len() && 0 <= q < x.len() && p != q implies x[p] != x[q] by {
            assert(a[p].0 != a[q].0 || a[q].0 != a[p].0);
        }
    }
    assert(y.no_duplicates()) by {
        assert forall|p: int, q: int| 0 <= p < y.len() && 0 <= q < y.len() && p != q implies y[p] != y[q] by {
            assert(b[p].0 != b[q].0 || b[q].0 != b[p].0);
        }
    }
    x.unique_seq_to_set();
    y.unique_seq_to_set();
    assert(x.to_set().subset_of(y.to_set())) by {
        assert forall|n: Seq<char>| x.to_set().contains(n) implies y.to_set().contains(n) by {
            let p = choose|p: int| 0 <= p < x.len() && x[p] == n;
            assert(lookup(b, a[p].0) is Some);
            lemma_last_at(b, n);
            let q = last_at(b, n)->0;
            assert(y[q] == n);
        }
    }
    vstd::set_lib::lemma_subset_equality(x.to_set(), y.to_set());
    assert(y[j] == b[j].0);
    assert(y.to_set().contains(b[j].0));
    assert(x.to_set().contains(b[j].0));
    let p = choose|p: int| 0 <= p < x.len() && x[p] == b[j].0;
    assert(a[p].0 == b[j].0);
}

proof fn lemma_same_turned(a: JsonV, b: JsonV)
    requires
        a.names_once(),
        b.names_once(),
        a.same(b),
    ensures
        b.same(a),
    decreases a,
{
    match (a, b) {
        (JsonV::Array(x), JsonV::Array(y)) => {
            assert forall|i: int| 0 <= i < y.len() implies (#[trigger] y[i]).same(x[i]) by {
                assert(x[i].same(y[i]));
                assert(x[i].names_once());
                lemma_same_turned(x[i], y[i]);
            }
            assert(b.same(a));
        },
        (JsonV::Object(x), JsonV::Object(y)) => {
            assert forall|j: int| 0 <= j < y.len() implies match lookup(x, (#[trigger] y[j]).0) {
                Some(v) => y[j].1.same(v),
                None => false,
            } by {
                assert forall|i: int| 0 <= i < x.len() implies lookup(y, (#[trigger] x[i]).0) is Some by {}
                lemma_same_names(x, y, j);
                let i = choose|i: int| 0 <= i < x.len() && (#[trigger] x[i]).0 == y[j].0;
                lemma_distinct_lookup(x, i);
                lemma_distinct_lookup(y, j);
                assert(x[i].1.same(y[j].1));
                assert(x[i].1.names_once());
                lemma_same_turned(x[i].1, y[j].1);
            }
            assert(b.same(a));
        },
        _ => {},
    }
}

/// Of two values in which no name stands twice in one object, it does not matter which is compared
/// with which.
pub proof fn law_same_symmetric(a: JsonV, b: JsonV)
    requires
        a.names_once(),
        b.names_once(),
    ensures
        a.same(b) == b.same(a),
{
    if a.same(b) {
        lemma_same_turned(a, b);
    }
    if b.same(a) {
        lemma_same_turned(b, a);
    }
}

} // verus!
