//! Identifiers and payload values as gRPC messages carry them.

use vstd::prelude::*;
use crate::entries::{lookup, names_distinct};
use crate::ieee::Double;
use crate::json::{
    fields, items, lemma_array, lemma_distinct_lookup, lemma_object, Json, JsonV, Number,
    NumberForm, NumberFormV, NumberV,
};
use crate::kernels::Kernels;
use crate::point::{PointId, PointIdV};
use crate::text::{decimal, decimal_of, law_decimal_read_back, read_u64, read_u64_of};

verus! {

// ---------------------------------------------------------------------------------------------
// Identifiers

/// The identifier of a point in a message.
pub enum PointIdOptions {
    Num(u64),
    Uuid(String),
}

pub enum PointIdOptionsV {
    Num(u64),
    Uuid(Seq<char>),
}

impl View for PointIdOptions {
    type V = PointIdOptionsV;

    open spec fn view(&self) -> PointIdOptionsV {
        match *self {
            PointIdOptions::Num(n) => PointIdOptionsV::Num(n),
            PointIdOptions::Uuid(s) => PointIdOptionsV::Uuid(s@),
        }
    }
}

/// An identifier that may be missing.
pub open spec fn id_of(id: Option<PointIdOptions>) -> Option<PointIdOptionsV> {
    match id {
        Some(i) => Some(i@),
        None => None,
    }
}

pub open spec fn ids_of(v: Seq<Option<PointIdOptions>>) -> Seq<Option<PointIdOptionsV>> {
    Seq::new(v.len(), |i: int| id_of(v[i]))
}

/// The key that an identifier leads to.
pub open spec fn key_of_id(id: Option<PointIdOptionsV>) -> Option<Seq<char>> {
    match id {
        Some(PointIdOptionsV::Num(n)) => Some(decimal_of(n as nat)),
        Some(PointIdOptionsV::Uuid(s)) => Some(s),
        None => None,
    }
}

/// The identifier of a stored point as a message carries it.
pub open spec fn proto_id(id: PointIdV) -> PointIdOptionsV {
    match id {
        PointIdV::String(s) => PointIdOptionsV::Uuid(s),
        PointIdV::Integer(n) => PointIdOptionsV::Num(n),
        PointIdV::Uuid(u) => PointIdOptionsV::Uuid(u),
    }
}

/// The identifier under which a point with a key is stored: a number if the key reads as one.
pub open spec fn id_with_key(key: Seq<char>) -> PointIdV {
    match read_u64_of(key) {
        Some(n) => PointIdV::Integer(n),
        None => PointIdV::String(key),
    }
}

pub fn parse_point_id(id: &Option<PointIdOptions>) -> (r: Option<String>)
    ensures
        key_of_id(id_of(*id)) == match r {
            Some(s) => Some(s@),
            None => None,
        },
{
    match id {
        Some(PointIdOptions::Num(n)) => Some(decimal(*n)),
        Some(PointIdOptions::Uuid(s)) => Some(s.clone()),
        None => None,
    }
}

pub fn to_proto_point_id(id: &PointId) -> (r: PointIdOptions)
    ensures
        r@ == proto_id(id@),
{
    match id {
        PointId::String(s) => PointIdOptions::Uuid(s.clone()),
        PointId::Integer(n) => PointIdOptions::Num(*n),
        PointId::Uuid(u) => PointIdOptions::Uuid(u.clone()),
    }
}

/// Makes the identifier of a point out of its key.
pub fn point_id(key: String) -> (r: PointId)
    ensures
        r@ == id_with_key(key@),
{
    match read_u64(key.as_str()) {
        Some(n) => PointId::Integer(n),
        None => PointId::String(key),
    }
}

/// The identifier that a message gives of a point leads back to the key of the point.
pub proof fn law_proto_id_keeps_key(id: PointIdV)
    ensures
        key_of_id(Some(proto_id(id))) == Some(id.key()),
{
}

/// A number in a message identifies the point that is stored under that number.
pub proof fn law_number_keeps_id(n: u64)
    ensures
        key_of_id(Some(PointIdOptionsV::Num(n))) is Some,
        id_with_key(key_of_id(Some(PointIdOptionsV::Num(n)))->0) == PointIdV::Integer(n),
{
    law_decimal_read_back(n);
}

/// The identifier made out of a key has a key that leads to the same point where the key is
/// written as numbers are, or is no number at all.
pub proof fn law_key_kept(key: Seq<char>)
    requires
        read_u64_of(key) matches Some(n) ==> decimal_of(n as nat) == key,
    ensures
        id_with_key(key).key() == key,
{
}

// ---------------------------------------------------------------------------------------------
// Values

/// A payload value in a message. A value whose kind is not set is `Absent`.
pub enum ProtoValue {
    Absent,
    Null,
    Double(Double),
    Integer(i64),
    Text(String),
    Bool(bool),
    List(Vec<ProtoValue>),
    Struct(Vec<(String, ProtoValue)>),
}

#[verifier::ext_equal]
pub enum ProtoValueV {
    Absent,
    Null,
    Double(Double),
    Integer(i64),
    Text(Seq<char>),
    Bool(bool),
    List(Seq<ProtoValueV>),
    Struct(Seq<(Seq<char>, ProtoValueV)>),
}

impl ProtoValue {
    pub open spec fn model(self) -> ProtoValueV
        decreases self,
    {
        match self {
            ProtoValue::Absent => ProtoValueV::Absent,
            ProtoValue::Null => ProtoValueV::Null,
            ProtoValue::Double(d) => ProtoValueV::Double(d),
            ProtoValue::Integer(n) => ProtoValueV::Integer(n),
            ProtoValue::Text(t) => ProtoValueV::Text(t@),
            ProtoValue::Bool(b) => ProtoValueV::Bool(b),
            ProtoValue::List(v) => ProtoValueV::List(
                Seq::new(
                    v@.len(),
                    |i: int|
                        if 0 <= i < v@.len() {
                            v@[i].model()
                        } else {
                            ProtoValueV::Absent
                        },
                ),
            ),
            ProtoValue::Struct(v) => ProtoValueV::Struct(
                Seq::new(
                    v@.len(),
                    |i: int|
                        if 0 <= i < v@.len() {
                            (v@[i].0@, v@[i].1.model())
                        } else {
                            (Seq::empty(), ProtoValueV::Absent)
                        },
                ),
            ),
        }
    }
}

impl View for ProtoValue {
    type V = ProtoValueV;

    open spec fn view(&self) -> ProtoValueV {
        self.model()
    }
}

/// The values in a list.
pub open spec fn values_of(v: Seq<ProtoValue>) -> Seq<ProtoValueV> {
    Seq::new(v.len(), |i: int| v[i]@)
}

/// Named values.
pub open spec fn named_of(v: Seq<(String, ProtoValue)>) -> Seq<(Seq<char>, ProtoValueV)> {
    Seq::new(v.len(), |i: int| (v[i].0@, v[i].1@))
}

proof fn lemma_list(v: Vec<ProtoValue>)
    ensures
        ProtoValue::List(v)@ == ProtoValueV::List(values_of(v@)),
{
    assert(ProtoValue::List(v)@->List_0 =~= values_of(v@));
}

proof fn lemma_struct(v: Vec<(String, ProtoValue)>)
    ensures
        ProtoValue::Struct(v)@ == ProtoValueV::Struct(named_of(v@)),
{
    assert(ProtoValue::Struct(v)@->Struct_0 =~= named_of(v@));
}

/// `x` is a JSON number for an integer.
pub open spec fn number_of_integer<K: Kernels>(k: &K, n: i64, x: NumberV) -> bool {
    &&& x.form == if n >= 0 {
        NumberFormV::Natural(n as u64)
    } else {
        NumberFormV::Negative(n)
    }
    &&& call_ensures(K::double_of, (k, n), x.double)
    &&& call_ensures(K::narrowed, (k, x.double), x.single)
}

/// `x` is a JSON number for a double-precision number.
pub open spec fn number_of_double<K: Kernels>(k: &K, d: Double, x: NumberV) -> bool {
    &&& x.double == d
    &&& call_ensures(K::narrowed, (k, d), x.single)
    &&& exists|t: String| x.form == NumberFormV::Decimal(t@) && #[trigger] call_ensures(K::double_text, (k, d), t)
}

/// `j` is the JSON value for a value of a message. JSON has no infinities and no NaN: they
/// become null, as what is not set does.
pub open spec fn becomes_json<K: Kernels>(k: &K, v: ProtoValueV, j: JsonV) -> bool
    decreases v,
{
    match v {
        ProtoValueV::Absent => j is Null,
        ProtoValueV::Null => j is Null,
        ProtoValueV::Double(d) => if d.finite() {
            j is Number && number_of_double(k, d, j->Number_0)
        } else {
            j is Null
        },
        ProtoValueV::Integer(n) => j is Number && number_of_integer(k, n, j->Number_0),
        ProtoValueV::Text(t) => j == JsonV::Text(t),
        ProtoValueV::Bool(b) => j == JsonV::Bool(b),
        ProtoValueV::List(l) => j is Array && j->Array_0.len() == l.len() && forall|i: int|
            0 <= i < l.len() ==> becomes_json(k, #[trigger] l[i], j->Array_0[i]),
        ProtoValueV::Struct(s) => j is Object && j->Object_0.len() == s.len() && forall|i: int|
            0 <= i < s.len() ==> j->Object_0[i].0 == (#[trigger] s[i]).0 && becomes_json(k, s[i].1, j->Object_0[i].1),
    }
}

/// Every named value becomes a member with that name.
pub open spec fn become_fields<K: Kernels>(
    k: &K,
    s: Seq<(Seq<char>, ProtoValueV)>,
    e: Seq<(Seq<char>, JsonV)>,
) -> bool {
    e.len() == s.len() && forall|i: int| 0 <= i < s.len() ==> e[i].0 == (#[trigger] s[i]).0 && becomes_json(k, s[i].1, e[i].1)
}

/// The value in a message for a JSON value: a number that is an integer in the range of `i64`
/// is sent as one, any other in double precision.
pub open spec fn proto_of(j: JsonV) -> ProtoValueV
    decreases j,
{
    match j {
        JsonV::Null => ProtoValueV::Null,
        JsonV::Bool(b) => ProtoValueV::Bool(b),
        JsonV::Number(n) => match n.integer() {
            Some(i) => ProtoValueV::Integer(i),
            None => ProtoValueV::Double(n.double),
        },
        JsonV::Text(t) => ProtoValueV::Text(t),
        JsonV::Array(a) => ProtoValueV::List(
            Seq::new(
                a.len(),
                |i: int|
                    if 0 <= i < a.len() {
                        proto_of(a[i])
                    } else {
                        ProtoValueV::Absent
                    },
            ),
        ),
        JsonV::Object(e) => ProtoValueV::Struct(
            Seq::new(
                e.len(),
                |i: int|
                    if 0 <= i < e.len() {
                        (e[i].0, proto_of(e[i].1))
                    } else {
                        (Seq::empty(), ProtoValueV::Absent)
                    },
            ),
        ),
    }
}

/// The named values in a message for the members of an object.
pub open spec fn proto_fields(e: Seq<(Seq<char>, JsonV)>) -> Seq<(Seq<char>, ProtoValueV)> {
    Seq::new(e.len(), |i: int| (e[i].0, proto_of(e[i].1)))
}

fn integer_number<K: Kernels>(k: &K, n: i64) -> (r: Number)
    ensures
        number_of_integer(k, n, r@),
{
    let double = k.double_of(n);
    let single = k.narrowed(double);
    let form = if n >= 0 {
        NumberForm::Natural(n as u64)
    } else {
        NumberForm::Negative(n)
    };
    Number { form, double, single }
}

fn double_number<K: Kernels>(k: &K, d: Double) -> (r: Number)
    ensures
        number_of_double(k, d, r@),
{
    let text = k.double_text(d);
    let single = k.narrowed(d);
    let r = Number { form: NumberForm::Decimal(text), double: d, single };
    assert(r@.form == NumberFormV::Decimal(text@));
    r
}

pub fn proto_value_to_json<K: Kernels>(k: &K, value: &ProtoValue) -> (r: Json)
    ensures
        becomes_json(k, value@, r@),
    decreases value,
{
    match value {
        ProtoValue::Absent => Json::Null,
        ProtoValue::Null => Json::Null,
        ProtoValue::Double(d) => if d.is_finite() {
            Json::Number(double_number(k, *d))
        } else {
            Json::Null
        },
        ProtoValue::Integer(n) => Json::Number(integer_number(k, *n)),
        ProtoValue::Text(t) => Json::Text(t.clone()),
        ProtoValue::Bool(b) => Json::Bool(*b),
        ProtoValue::List(v) => {
            let mut w: Vec<Json> = Vec::new();
            let mut i: usize = 0;
            while i < v.len()
                invariant
                    *value == ProtoValue::List(*v),
                    i <= v@.len(),
                    w@.len() == i,
                    forall|j: int| 0 <= j < i ==> becomes_json(k, v@[j]@, #[trigger] items(w@)[j]),
                decreases v@.len() - i,
            {
                assert(decreases_to!(*value => (*value)->List_0));
                assert(decreases_to!(*v => v@));
                assert(decreases_to!(v@ => v@[i as int]));
                let ghost w0 = w@;
                let x = proto_value_to_json(k, &v[i]);
                w.push(x);
                assert(items(w@) =~= items(w0).push(x@));
                i += 1;
            }
            proof {
                lemma_list(*v);
                lemma_array(w);
                assert forall|j: int| 0 <= j < v@.len() implies becomes_json(
                    k,
                    #[trigger] values_of(v@)[j],
                    items(w@)[j],
                ) by {
                    assert(values_of(v@)[j] == v@[j]@);
                }
            }
            Json::Array(w)
        },
        ProtoValue::Struct(v) => {
            let mut w: Vec<(String, Json)> = Vec::new();
            let mut i: usize = 0;
            while i < v.len()
                invariant
                    *value == ProtoValue::Struct(*v),
                    i <= v@.len(),
                    w@.len() == i,
                    forall|j: int|
                        0 <= j < i ==> (#[trigger] fields(w@)[j]).0 == v@[j].0@ && becomes_json(
                            k,
                            v@[j].1@,
                            fields(w@)[j].1,
                        ),
                decreases v@.len() - i,
            {
                assert(decreases_to!(*value => (*value)->Struct_0));
                assert(decreases_to!(*v => v@));
                assert(decreases_to!(v@ => v@[i as int]));
                assert(decreases_to!(v@[i as int] => v@[i as int].1));
                let ghost w0 = w@;
                let x = proto_value_to_json(k, &v[i].1);
                let ghost x_v = x@;
                w.push((v[i].0.clone(), x));
                assert(fields(w@) =~= fields(w0).push((v@[i as int].0@, x_v)));
                i += 1;
            }
            proof {
                lemma_struct(*v);
                lemma_object(w);
                assert forall|j: int| 0 <= j < v@.len() implies fields(w@)[j].0 == (#[trigger] named_of(v@)[j]).0
                    && becomes_json(k, named_of(v@)[j].1, fields(w@)[j].1) by {
                    assert(named_of(v@)[j].1 == v@[j].1@);
                    assert(fields(w@)[j].0 == v@[j].0@);
                }
            }
            Json::Object(w)
        },
    }
}

pub fn json_to_proto_value(value: &Json) -> (r: ProtoValue)
    ensures
        r@ == proto_of(value@),
    decreases value,
{
    match value {
        Json::Null => ProtoValue::Null,
        Json::Bool(b) => ProtoValue::Bool(*b),
        Json::Number(n) => match n.as_i64() {
            Some(i) => ProtoValue::Integer(i),
            None => ProtoValue::Double(n.double),
        },
        Json::Text(t) => ProtoValue::Text(t.clone()),
        Json::Array(v) => {
            let mut w: Vec<ProtoValue> = Vec::new();
            let mut i: usize = 0;
            while i < v.len()
                invariant
                    *value == Json::Array(*v),
                    i <= v@.len(),
                    w@.len() == i,
                    forall|j: int| 0 <= j < i ==> (#[trigger] w@[j])@ == proto_of(v@[j]@),
                decreases v@.len() - i,
            {
                assert(decreases_to!(*value => (*value)->Array_0));
                assert(decreases_to!(*v => v@));
                assert(decreases_to!(v@ => v@[i as int]));
                w.push(json_to_proto_value(&v[i]));
                i += 1;
            }
            proof {
                lemma_array(*v);
                lemma_list(w);
                assert(values_of(w@) =~= proto_of(value@)->List_0);
            }
            ProtoValue::List(w)
        },
        Json::Object(v) => {
            let mut w: Vec<(String, ProtoValue)> = Vec::new();
            let mut i: usize = 0;
            while i < v.len()
                invariant
                    *value == Json::Object(*v),
                    i <= v@.len(),
                    w@.len() == i,
                    forall|j: int|
                        0 <= j < i ==> (#[trigger] w@[j]).0@ == v@[j].0@ && w@[j].1@ == proto_of(v@[j].1@),
                decreases v@.len() - i,
            {
                assert(decreases_to!(*value => (*value)->Object_0));
                assert(decreases_to!(*v => v@));
                assert(decreases_to!(v@ => v@[i as int]));
                assert(decreases_to!(v@[i as int] => v@[i as int].1));
                w.push((v[i].0.clone(), json_to_proto_value(&v[i].1)));
                i += 1;
            }
            proof {
                lemma_object(*v);
                lemma_struct(w);
                assert(named_of(w@) =~= proto_of(value@)->Struct_0);
            }
            ProtoValue::Struct(w)
        },
    }
}

/// Values that JSON can hold: everywhere a kind is set and a number is finite.
pub open spec fn json_ready(v: ProtoValueV) -> bool
    decreases v,
{
    match v {
        ProtoValueV::Absent => false,
        ProtoValueV::Double(d) => d.finite(),
        ProtoValueV::List(l) => forall|i: int| 0 <= i < l.len() ==> json_ready(#[trigger] l[i]),
        ProtoValueV::Struct(s) => forall|i: int| 0 <= i < s.len() ==> json_ready((#[trigger] s[i]).1),
        _ => true,
    }
}

/// A value that came in a message and was kept as JSON goes out in a message as it came.
pub proof fn law_value_comes_back<K: Kernels>(k: &K, v: ProtoValueV, j: JsonV)
    requires
        json_ready(v),
        becomes_json(k, v, j),
    ensures
        proto_of(j) == v,
    decreases v,
{
    match v {
        ProtoValueV::List(l) => {
            let a = j->Array_0;
            assert forall|i: int| 0 <= i < l.len() implies proto_of(j)->List_0[i] == l[i] by {
                assert(json_ready(l[i]));
                assert(becomes_json(k, l[i], a[i]));
                law_value_comes_back(k, l[i], a[i]);
            }
            assert(proto_of(j)->List_0 =~= l);
        },
        ProtoValueV::Struct(s) => {
            let e = j->Object_0;
            assert forall|i: int| 0 <= i < s.len() implies proto_of(j)->Struct_0[i] == s[i] by {
                assert(json_ready(s[i].1));
                assert(becomes_json(k, s[i].1, e[i].1));
                law_value_comes_back(k, s[i].1, e[i].1);
            }
            assert(proto_of(j)->Struct_0 =~= s);
        },
        _ => {},
    }
}

/// Values that a message can hold as they are: every number is an integer in the range of `i64` or
/// finite, and no object has a name twice. What is written as a negative number is one.
pub open spec fn message_ready(j: JsonV) -> bool
    decreases j,
{
    match j {
        JsonV::Number(n) => match n.form {
            NumberFormV::Natural(x) => x <= i64::MAX,
            NumberFormV::Negative(x) => x < 0,
            NumberFormV::Decimal(_) => n.double.finite(),
        },
        JsonV::Array(a) => forall|i: int| 0 <= i < a.len() ==> message_ready(#[trigger] a[i]),
        JsonV::Object(e) => names_distinct(e) && forall|i: int|
            0 <= i < e.len() ==> message_ready((#[trigger] e[i]).1),
        _ => true,
    }
}

/// A JSON value that goes out in a message and comes in again is the same.
pub proof fn law_json_comes_back<K: Kernels>(k: &K, j: JsonV, back: JsonV)
    requires
        message_ready(j),
        becomes_json(k, proto_of(j), back),
    ensures
        back.same(j),
        j.same(back),
    decreases j,
{
    match j {
        JsonV::Array(a) => {
            let l = proto_of(j)->List_0;
            let b = back->Array_0;
            assert forall|i: int| 0 <= i < a.len() implies (#[trigger] a[i]).same(b[i]) && b[i].same(a[i]) by {
                assert(message_ready(a[i]));
                assert(l[i] == proto_of(a[i]));
                assert(becomes_json(k, l[i], b[i]));
                law_json_comes_back(k, a[i], b[i]);
            }
            assert(j.same(back));
            assert forall|i: int| 0 <= i < b.len() implies (#[trigger] b[i]).same(a[i]) by {
                assert(a[i].same(b[i]));
            }
            assert(back.same(j));
        },
        JsonV::Object(e) => {
            let s = proto_of(j)->Struct_0;
            let b = back->Object_0;
            assert forall|i: int| 0 <= i < e.len() implies (#[trigger] e[i]).0 == b[i].0 && e[i].1.same(b[i].1)
                && b[i].1.same(e[i].1) by {
                assert(message_ready(e[i].1));
                assert(s[i] == (e[i].0, proto_of(e[i].1)));
                assert(becomes_json(k, s[i].1, b[i].1));
                law_json_comes_back(k, e[i].1, b[i].1);
            }
            assert(names_distinct(b)) by {
                assert forall|p: int, q: int| 0 <= p < q < b.len() implies (#[trigger] b[p]).0 != (
                #[trigger] b[q]).0 by {
                    assert(e[p].0 == b[p].0 && e[q].0 == b[q].0);
                }
            }
            assert forall|i: int| 0 <= i < e.len() implies match lookup(b, (#[trigger] e[i]).0) {
                Some(v) => e[i].1.same(v),
                None => false,
            } by {
                lemma_distinct_lookup(b, i);
            }
            assert(j.same(back));
            assert forall|i: int| 0 <= i < b.len() implies match lookup(e, (#[trigger] b[i]).0) {
                Some(v) => b[i].1.same(v),
                None => false,
            } by {
                assert(e[i].0 == b[i].0);
                lemma_distinct_lookup(e, i);
            }
            assert(back.same(j));
        },
        _ => {},
    }
}

} // verus!
