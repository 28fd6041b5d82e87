//! Payload filters: conditions on the fields of a payload, and how they are read from JSON.

use vstd::prelude::*;
use crate::ieee::Double;
use crate::json::{items, Json, JsonV};
use crate::point::{payload_of, Point, PointV};
use crate::text::{copied, same_text};

verus! {

/// What decides which points a search may return.
pub trait Filter {
    /// Whether the filter lets a point through.
    spec fn accepts(&self, point: PointV) -> bool;

    fn matches(&self, point: &Point) -> (r: bool)
        ensures
            r == self.accepts(point@),
    ;
}

/// A condition on a payload.
#[allow(inconsistent_fields)]
pub enum FilterCondition {
    And(Vec<FilterCondition>),
    Or(Vec<FilterCondition>),
    Not(Box<FilterCondition>),
    Equals { field: String, value: Json },
    NotEquals { field: String, value: Json },
    GreaterThan { field: String, value: Double },
    LessThan { field: String, value: Double },
    GreaterEqual { field: String, value: Double },
    LessEqual { field: String, value: Double },
}

/// A condition as a mathematical object.
#[allow(inconsistent_fields)]
#[verifier::ext_equal]
pub enum FilterConditionV {
    And(Seq<FilterConditionV>),
    Or(Seq<FilterConditionV>),
    Not(Box<FilterConditionV>),
    Equals { field: Seq<char>, value: JsonV },
    NotEquals { field: Seq<char>, value: JsonV },
    GreaterThan { field: Seq<char>, value: Double },
    LessThan { field: Seq<char>, value: Double },
    GreaterEqual { field: Seq<char>, value: Double },
    LessEqual { field: Seq<char>, value: Double },
}

impl FilterConditionV {
    /// Whether a payload meets the condition. A field that is missing, or that is no number
    /// where a number is asked for, meets none but `NotEquals`.
    pub open spec fn holds(self, payload: JsonV) -> bool
        decreases self,
    {
        match self {
            FilterConditionV::And(all) => forall|i: int| 0 <= i < all.len() ==> (#[trigger] all[i]).holds(payload),
            FilterConditionV::Or(any) => exists|i: int| 0 <= i < any.len() && (#[trigger] any[i]).holds(payload),
            FilterConditionV::Not(one) => !(*one).holds(payload),
            FilterConditionV::Equals { field, value } => match payload.get(field) {
                Some(v) => v.same(value),
                None => false,
            },
            FilterConditionV::NotEquals { field, value } => match payload.get(field) {
                Some(v) => !v.same(value),
                None => true,
            },
            FilterConditionV::GreaterThan { field, value } => match payload.get_number(field) {
                Some(n) => value.less(n.double),
                None => false,
            },
            FilterConditionV::LessThan { field, value } => match payload.get_number(field) {
                Some(n) => n.double.less(value),
                None => false,
            },
            FilterConditionV::GreaterEqual { field, value } => match payload.get_number(field) {
                Some(n) => value.at_most(n.double),
                None => false,
            },
            FilterConditionV::LessEqual { field, value } => match payload.get_number(field) {
                Some(n) => n.double.at_most(value),
                None => false,
            },
        }
    }
}

impl FilterCondition {
    pub open spec fn model(self) -> FilterConditionV
        decreases self,
    {
        match self {
            FilterCondition::And(v) => FilterConditionV::And(
                Seq::new(
                    v@.len(),
                    |i: int|
                        if 0 <= i < v@.len() {
                            v@[i].model()
                        } else {
                            FilterConditionV::And(Seq::empty())
                        },
                ),
            ),
            FilterCondition::Or(v) => FilterConditionV::Or(
                Seq::new(
                    v@.len(),
                    |i: int|
                        if 0 <= i < v@.len() {
                            v@[i].model()
                        } else {
                            FilterConditionV::And(Seq::empty())
                        },
                ),
            ),
            FilterCondition::Not(c) => FilterConditionV::Not(Box::new((*c).model())),
            FilterCondition::Equals { field, value } => FilterConditionV::Equals { field: field@, value: value@ },
            FilterCondition::NotEquals { field, value } => FilterConditionV::NotEquals {
                field: field@,
                value: value@,
            },
            FilterCondition::GreaterThan { field, value } => FilterConditionV::GreaterThan { field: field@, value },
            FilterCondition::LessThan { field, value } => FilterConditionV::LessThan { field: field@, value },
            FilterCondition::GreaterEqual { field, value } => FilterConditionV::GreaterEqual { field: field@, value },
            FilterCondition::LessEqual { field, value } => FilterConditionV::LessEqual { field: field@, value },
        }
    }
}

impl View for FilterCondition {
    type V = FilterConditionV;

    open spec fn view(&self) -> FilterConditionV {
        self.model()
    }
}

/// The conditions in a list.
pub open spec fn conditions(v: Seq<FilterCondition>) -> Seq<FilterConditionV> {
    Seq::new(v.len(), |i: int| v[i]@)
}

proof fn lemma_and(v: Vec<FilterCondition>)
    ensures
        FilterCondition::And(v)@ == FilterConditionV::And(conditions(v@)),
{
    assert(FilterCondition::And(v)@->And_0 =~= conditions(v@));
}

proof fn lemma_or(v: Vec<FilterCondition>)
    ensures
        FilterCondition::Or(v)@ == FilterConditionV::Or(conditions(v@)),
{
    assert(FilterCondition::Or(v)@->Or_0 =~= conditions(v@));
}

pub proof fn lemma_holds_and(list: Seq<FilterConditionV>, payload: JsonV)
    ensures
        FilterConditionV::And(list).holds(payload) == forall|i: int|
            0 <= i < list.len() ==> (#[trigger] list[i]).holds(payload),
{
    reveal_with_fuel(FilterConditionV::holds, 2);
    let c = FilterConditionV::And(list);
    if c.holds(payload) {
        assert forall|i: int| 0 <= i < list.len() implies (#[trigger] list[i]).holds(payload) by {
            assert(c->And_0[i] == list[i]);
        }
    }
    if forall|i: int| 0 <= i < list.len() ==> (#[trigger] list[i]).holds(payload) {
        assert forall|i: int| 0 <= i < c->And_0.len() implies (#[trigger] c->And_0[i]).holds(payload) by {
            assert(c->And_0[i] == list[i]);
        }
        assert(c.holds(payload));
    }
}

pub proof fn lemma_holds_or(list: Seq<FilterConditionV>, payload: JsonV)
    ensures
        FilterConditionV::Or(list).holds(payload) == exists|i: int|
            0 <= i < list.len() && (#[trigger] list[i]).holds(payload),
{
    reveal_with_fuel(FilterConditionV::holds, 2);
    let c = FilterConditionV::Or(list);
    if c.holds(payload) {
        let i = choose|i: int| 0 <= i < c->Or_0.len() && (#[trigger] c->Or_0[i]).holds(payload);
        assert(list[i].holds(payload));
    }
    if exists|i: int| 0 <= i < list.len() && (#[trigger] list[i]).holds(payload) {
        let i = choose|i: int| 0 <= i < list.len() && (#[trigger] list[i]).holds(payload);
        assert(c->Or_0[i].holds(payload));
        assert(c.holds(payload));
    }
}

impl FilterCondition {
    /// Whether a payload meets the condition.
    pub fn holds(&self, payload: &Json) -> (r: bool)
        ensures
            r == self@.holds(payload@),
        decreases self,
    {
        match self {
            FilterCondition::And(v) => {
                proof {
                    lemma_and(*v);
                    lemma_holds_and(conditions(v@), payload@);
                }
                let mut i: usize = 0;
                while i < v.len()
                    invariant
                        i <= v@.len(),
                        *self == FilterCondition::And(*v),
                        self@ == FilterConditionV::And(conditions(v@)),
                        forall|j: int| 0 <= j < i ==> (#[trigger] conditions(v@)[j]).holds(payload@),
                    decreases v@.len() - i,
                {
                    assert(decreases_to!(*self => (*self)->And_0));
                    assert(decreases_to!(*v => v@));
                    assert(decreases_to!(v@ => v@[i as int]));
                    if !v[i].holds(payload) {
                        proof {
                            lemma_holds_and(conditions(v@), payload@);
                            assert(!conditions(v@)[i as int].holds(payload@));
                        }
                        return false;
                    }
                    i += 1;
                }
                true
            },
            FilterCondition::Or(v) => {
                proof {
                    lemma_or(*v);
                    lemma_holds_or(conditions(v@), payload@);
                }
                let mut i: usize = 0;
                while i < v.len()
                    invariant
                        i <= v@.len(),
                        *self == FilterCondition::Or(*v),
                        self@ == FilterConditionV::Or(conditions(v@)),
                        forall|j: int| 0 <= j < i ==> !(#[trigger] conditions(v@)[j]).holds(payload@),
                    decreases v@.len() - i,
                {
                    assert(decreases_to!(*self => (*self)->Or_0));
                    assert(decreases_to!(*v => v@));
                    assert(decreases_to!(v@ => v@[i as int]));
                    if v[i].holds(payload) {
                        proof {
                            lemma_holds_or(conditions(v@), payload@);
                            assert(conditions(v@)[i as int].holds(payload@));
                        }
                        return true;
                    }
                    i += 1;
                }
                false
            },
            FilterCondition::Not(c) => !c.holds(payload),
            FilterCondition::Equals { field, value } => match payload.get(field.as_str()) {
                Some(v) => v.same(value),
                None => false,
            },
            FilterCondition::NotEquals { field, value } => match payload.get(field.as_str()) {
                Some(v) => !v.same(value),
                None => true,
            },
            FilterCondition::GreaterThan { field, value } => match payload.get_number(field.as_str()) {
                Some(n) => value.lt(n.double),
                None => false,
            },
            FilterCondition::LessThan { field, value } => match payload.get_number(field.as_str()) {
                Some(n) => n.double.lt(*value),
                None => false,
            },
            FilterCondition::GreaterEqual { field, value } => match payload.get_number(field.as_str()) {
                Some(n) => value.le(n.double),
                None => false,
            },
            FilterCondition::LessEqual { field, value } => match payload.get_number(field.as_str()) {
                Some(n) => n.double.le(*value),
                None => false,
            },
        }
    }
}

/// The filter that a condition on the payload makes: a point without a payload does not pass.
pub struct PayloadFilter {
    pub condition: FilterCondition,
}

impl PayloadFilter {
    pub fn new(condition: FilterCondition) -> (r: PayloadFilter)
        ensures
            r.condition == condition,
    {
        PayloadFilter { condition }
    }
}

/// Whether a point passes a condition on its payload.
pub open spec fn passes(condition: FilterConditionV, point: PointV) -> bool {
    match point.payload {
        Some(p) => condition.holds(p),
        None => false,
    }
}

impl Filter for PayloadFilter {
    open spec fn accepts(&self, point: PointV) -> bool {
        passes(self.condition@, point)
    }

    fn matches(&self, point: &Point) -> (r: bool) {
        match &point.payload {
            Some(p) => self.condition.holds(p),
            None => false,
        }
    }
}

// ---------------------------------------------------------------------------------------------
// Reading filters

/// Conditions that must hold together, as at most one condition.
pub open spec fn together(list: Seq<FilterConditionV>) -> Seq<FilterConditionV> {
    if list.len() <= 1 {
        list
    } else {
        seq![FilterConditionV::And(list)]
    }
}

/// Conditions of which one must hold, as at most one condition.
pub open spec fn alternatives(list: Seq<FilterConditionV>) -> Seq<FilterConditionV> {
    if list.len() <= 1 {
        list
    } else {
        seq![FilterConditionV::Or(list)]
    }
}

/// For each of several values the condition that a field equals it.
pub open spec fn equals_each(key: Seq<char>, values: Seq<JsonV>) -> Seq<FilterConditionV> {
    Seq::new(values.len(), |i: int| FilterConditionV::Equals { field: key, value: values[i] })
}

/// `{"match": {"value": x}}` or `{"match": {"text": x}}`: the field equals `x`.
/// `{"match": {"any": [x, ...]}}`: the field equals one of the values; an empty list says nothing.
pub open spec fn match_part(cond: JsonV, key: Seq<char>) -> Option<FilterConditionV> {
    match cond.get_object("match"@) {
        None => None,
        Some(m) => match m.get("value"@) {
            Some(value) => Some(FilterConditionV::Equals { field: key, value }),
            None => match m.get_array("any"@) {
                Some(any) if any.len() > 0 => Some(alternatives(equals_each(key, any))[0]),
                _ => match m.get("text"@) {
                    Some(value) => Some(FilterConditionV::Equals { field: key, value }),
                    None => None,
                },
            },
        },
    }
}

/// The bounds of a range that are given as numbers, in the order `gt`, `gte`, `lt`, `lte`.
pub open spec fn bounds(range: JsonV, key: Seq<char>) -> Seq<FilterConditionV> {
    let above = match range.get_number("gt"@) {
        Some(n) => seq![FilterConditionV::GreaterThan { field: key, value: n.double }],
        None => Seq::empty(),
    };
    let from = match range.get_number("gte"@) {
        Some(n) => seq![FilterConditionV::GreaterEqual { field: key, value: n.double }],
        None => Seq::empty(),
    };
    let below = match range.get_number("lt"@) {
        Some(n) => seq![FilterConditionV::LessThan { field: key, value: n.double }],
        None => Seq::empty(),
    };
    let up_to = match range.get_number("lte"@) {
        Some(n) => seq![FilterConditionV::LessEqual { field: key, value: n.double }],
        None => Seq::empty(),
    };
    above + from + below + up_to
}

/// `{"range": {"gt": x, "lt": y}}` and so on: the field is a number inside all bounds that are
/// given.
pub open spec fn range_part(cond: JsonV, key: Seq<char>) -> Option<FilterConditionV> {
    match cond.get_object("range"@) {
        None => None,
        Some(r) => if bounds(r, key).len() == 0 {
            None
        } else {
            Some(together(bounds(r, key))[0])
        },
    }
}

/// A condition on one field: `{"key": field, ...}`.
pub open spec fn field_condition(cond: JsonV) -> Option<FilterConditionV> {
    match cond.get_text("key"@) {
        None => None,
        Some(key) => match match_part(cond, key) {
            Some(c) => Some(c),
            None => range_part(cond, key),
        },
    }
}

/// The conditions on one field among the members of a list.
pub open spec fn field_conditions(list: Seq<JsonV>) -> Seq<FilterConditionV>
    decreases list.len(),
{
    if list.len() == 0 {
        Seq::empty()
    } else {
        match field_condition(list.last()) {
            Some(c) => field_conditions(list.drop_last()).push(c),
            None => field_conditions(list.drop_last()),
        }
    }
}

/// The negations of conditions.
pub open spec fn negated(list: Seq<FilterConditionV>) -> Seq<FilterConditionV> {
    Seq::new(list.len(), |i: int| FilterConditionV::Not(Box::new(list[i])))
}

/// The conditions under a name, or none.
pub open spec fn conditions_under(filter: JsonV, name: Seq<char>) -> Seq<FilterConditionV> {
    match filter.get_array(name) {
        Some(list) => field_conditions(list),
        None => Seq::empty(),
    }
}

/// The parts of a filter: `must`, `should` and `must_not`.
pub open spec fn clauses(filter: JsonV) -> Seq<FilterConditionV> {
    together(conditions_under(filter, "must"@)) + alternatives(conditions_under(filter, "should"@)) + negated(
        conditions_under(filter, "must_not"@),
    )
}

/// The simple form `{"field": f, "value": x, "operator": op}`; `None` where it is not this form,
/// `Some(None)` where it is but the value is no number and the operator asks for one.
pub open spec fn simple_condition(filter: JsonV) -> Option<Option<FilterConditionV>> {
    match (filter.get_text("field"@), filter.get("value"@), filter.get_text("operator"@)) {
        (Some(field), Some(value), Some(op)) => {
            let number = value.number();
            if op == "eq"@ {
                Some(Some(FilterConditionV::Equals { field, value }))
            } else if op == "ne"@ {
                Some(Some(FilterConditionV::NotEquals { field, value }))
            } else if op == "gt"@ {
                Some(match number {
                    Some(n) => Some(FilterConditionV::GreaterThan { field, value: n.double }),
                    None => None,
                })
            } else if op == "lt"@ {
                Some(match number {
                    Some(n) => Some(FilterConditionV::LessThan { field, value: n.double }),
                    None => None,
                })
            } else if op == "gte"@ {
                Some(match number {
                    Some(n) => Some(FilterConditionV::GreaterEqual { field, value: n.double }),
                    None => None,
                })
            } else if op == "lte"@ {
                Some(match number {
                    Some(n) => Some(FilterConditionV::LessEqual { field, value: n.double }),
                    None => None,
                })
            } else {
                None
            }
        },
        _ => None,
    }
}

/// The condition that a filter in JSON stands for, if any.
pub open spec fn filter_condition(filter: JsonV) -> Option<FilterConditionV> {
    if clauses(filter).len() == 1 {
        Some(clauses(filter)[0])
    } else if clauses(filter).len() > 1 {
        Some(FilterConditionV::And(clauses(filter)))
    } else {
        match simple_condition(filter) {
            Some(c) => c,
            None => field_condition(filter),
        }
    }
}

/// The view of a condition that may be there.
pub open spec fn condition_of(c: Option<FilterCondition>) -> Option<FilterConditionV> {
    match c {
        Some(f) => Some(f@),
        None => None,
    }
}

/// Makes one condition of several: one as it is, more than one as alternatives, if `any`, or as
/// conditions that must hold together.
fn combine(mut group: Vec<FilterCondition>, any: bool) -> (r: Option<FilterCondition>)
    ensures
        condition_of(r) == if group@.len() == 0 {
            None
        } else if any {
            Some(alternatives(conditions(group@))[0])
        } else {
            Some(together(conditions(group@))[0])
        },
{
    let ghost list = conditions(group@);
    if group.len() <= 1 {
        proof {
            if group@.len() == 1 {
                assert(list[0] == group@[0]@);
            }
        }
        return group.pop();
    }
    proof {
        lemma_or(group);
        lemma_and(group);
    }
    if any {
        Some(FilterCondition::Or(group))
    } else {
        Some(FilterCondition::And(group))
    }
}

fn parse_any(key: &str, any: &Vec<Json>) -> (r: Vec<FilterCondition>)
    ensures
        conditions(r@) == equals_each(key@, items(any@)),
{
    let mut r: Vec<FilterCondition> = Vec::new();
    let mut i: usize = 0;
    while i < any.len()
        invariant
            i <= any@.len(),
            r@.len() == i,
            forall|j: int| 0 <= j < i ==> (#[trigger] r@[j])@ == equals_each(key@, items(any@))[j],
        decreases any@.len() - i,
    {
        r.push(FilterCondition::Equals { field: copied(key), value: any[i].clone() });
        i += 1;
    }
    assert(conditions(r@) =~= equals_each(key@, items(any@)));
    r
}

fn parse_match(cond: &Json, key: &str) -> (r: Option<FilterCondition>)
    ensures
        condition_of(r) == match_part(cond@, key@),
{
    if let Some(m) = cond.get_object("match") {
        if let Some(value) = m.get("value") {
            return Some(FilterCondition::Equals { field: copied(key), value: value.clone() });
        }
        if let Some(any) = m.get_array("any") {
            if any.len() > 0 {
                let each = parse_any(key, any);
                assert(conditions(each@).len() == each@.len());
                return combine(each, true);
            }
        }
        if let Some(value) = m.get("text") {
            return Some(FilterCondition::Equals { field: copied(key), value: value.clone() });
        }
    }
    None
}

fn parse_range(cond: &Json, key: &str) -> (r: Option<FilterCondition>)
    ensures
        condition_of(r) == range_part(cond@, key@),
{
    if let Some(range) = cond.get_object("range") {
        let mut r: Vec<FilterCondition> = Vec::new();
        if let Some(n) = range.get_number("gt") {
            r.push(FilterCondition::GreaterThan { field: copied(key), value: n.double });
        }
        if let Some(n) = range.get_number("gte") {
            r.push(FilterCondition::GreaterEqual { field: copied(key), value: n.double });
        }
        if let Some(n) = range.get_number("lt") {
            r.push(FilterCondition::LessThan { field: copied(key), value: n.double });
        }
        if let Some(n) = range.get_number("lte") {
            r.push(FilterCondition::LessEqual { field: copied(key), value: n.double });
        }
        assert(conditions(r@) =~= bounds(range@, key@));
        return combine(r, false);
    }
    None
}

/// Parse a single field condition
pub fn parse_field_condition(cond: &Json) -> (r: Option<FilterCondition>)
    ensures
        condition_of(r) == field_condition(cond@),
{
    match cond.get_text("key") {
        None => None,
        Some(key) => match parse_match(cond, key.as_str()) {
            Some(c) => Some(c),
            None => parse_range(cond, key.as_str()),
        },
    }
}

fn parse_conditions_under(filter: &Json, name: &str) -> (r: Vec<FilterCondition>)
    ensures
        conditions(r@) == conditions_under(filter@, name@),
{
    let mut r: Vec<FilterCondition> = Vec::new();
    if let Some(list) = filter.get_array(name) {
        let mut i: usize = 0;
        let ghost all = items(list@);
        assert(conditions(r@) =~= field_conditions(all.take(0)));
        while i < list.len()
            invariant
                i <= list@.len(),
                all == items(list@),
                conditions(r@) == field_conditions(all.take(i as int)),
            decreases list@.len() - i,
        {
            let ghost before = r@;
            assert(all.take(i + 1).drop_last() =~= all.take(i as int));
            assert(all.take(i + 1).last() == list@[i as int]@);
            if let Some(c) = parse_field_condition(&list[i]) {
                r.push(c);
                assert(conditions(r@) =~= conditions(before).push(c@));
            }
            i += 1;
        }
        assert(all.take(i as int) =~= all);
    } else {
        assert(conditions(r@) =~= Seq::<FilterConditionV>::empty());
    }
    r
}

/// Adds conditions behind those that are there: one as it is, several as one.
fn push_group(all: &mut Vec<FilterCondition>, mut group: Vec<FilterCondition>, any: bool)
    ensures
        conditions(final(all)@) == conditions(old(all)@) + if any {
            alternatives(conditions(group@))
        } else {
            together(conditions(group@))
        },
{
    let ghost before = conditions(all@);
    let ghost list = conditions(group@);
    if group.len() == 1 {
        if let Some(c) = group.pop() {
            all.push(c);
        }
        assert(list.len() == 1);
        assert(conditions(all@) =~= before + list);
    } else if group.len() > 1 {
        if any {
            proof {
                lemma_or(group);
            }
            all.push(FilterCondition::Or(group));
            assert(conditions(all@) =~= before + seq![FilterConditionV::Or(list)]);
        } else {
            proof {
                lemma_and(group);
            }
            all.push(FilterCondition::And(group));
            assert(conditions(all@) =~= before + seq![FilterConditionV::And(list)]);
        }
    } else {
        assert(conditions(all@) =~= before + list);
    }
}

/// Adds the negations of conditions, in their order.
fn push_negated(all: &mut Vec<FilterCondition>, group: Vec<FilterCondition>)
    ensures
        conditions(final(all)@) == conditions(old(all)@) + negated(conditions(group@)),
{
    let ghost before = conditions(all@);
    let ghost list = conditions(group@);
    let mut rest = group;
    let mut turned: Vec<FilterCondition> = Vec::new();
    while rest.len() > 0
        invariant
            list.len() == rest@.len() + turned@.len(),
            conditions(rest@) == list.take(rest@.len() as int),
            forall|j: int|
                0 <= j < turned@.len() ==> (#[trigger] turned@[j])@ == FilterConditionV::Not(
                    Box::new(list[list.len() - 1 - j]),
                ),
        decreases rest@.len(),
    {
        let ghost rest0 = rest@;
        if let Some(c) = rest.pop() {
            assert(conditions(rest0)[rest0.len() - 1] == c@);
            assert(conditions(rest@) =~= list.take(rest@.len() as int)) by {
                assert forall|j: int| 0 <= j < rest@.len() implies #[trigger] conditions(rest@)[j] == list[j] by {
                    assert(conditions(rest0)[j] == list.take(rest0.len() as int)[j]);
                }
            }
            let n = FilterCondition::Not(Box::new(c));
            assert(n@ == FilterConditionV::Not(Box::new(c@)));
            turned.push(n);
        }
    }
    while turned.len() > 0
        invariant
            turned@.len() <= list.len(),
            forall|j: int|
                0 <= j < turned@.len() ==> (#[trigger] turned@[j])@ == FilterConditionV::Not(
                    Box::new(list[list.len() - 1 - j]),
                ),
            conditions(all@) == before + negated(list).take(list.len() - turned@.len()),
        decreases turned@.len(),
    {
        let ghost all0 = all@;
        let ghost turned0 = turned@;
        if let Some(c) = turned.pop() {
            assert(turned0[turned0.len() - 1]@ == FilterConditionV::Not(Box::new(list[list.len() - turned0.len()])));
            all.push(c);
            assert(conditions(all@) =~= conditions(all0).push(c@));
            assert(negated(list).take(list.len() - turned@.len()) =~= negated(list).take(
                list.len() - turned0.len(),
            ).push(c@));
        }
    }
    assert(negated(list).take(list.len() as int) =~= negated(list));
}

fn parse_simple(filter: &Json) -> (r: Option<Option<FilterCondition>>)
    ensures
        simple_condition(filter@) == match r {
            Some(c) => Some(condition_of(c)),
            None => None,
        },
{
    let field = match filter.get_text("field") {
        Some(f) => f.as_str(),
        None => {
            return None;
        },
    };
    let value = match filter.get("value") {
        Some(v) => v,
        None => {
            return None;
        },
    };
    let op = match filter.get_text("operator") {
        Some(o) => o.as_str(),
        None => {
            return None;
        },
    };
    if same_text(op, "eq") {
        return Some(Some(FilterCondition::Equals { field: copied(field), value: value.clone() }));
    }
    if same_text(op, "ne") {
        return Some(Some(FilterCondition::NotEquals { field: copied(field), value: value.clone() }));
    }
    let number: Option<Double> = match value.as_number() {
        Some(n) => Some(n.double),
        None => None,
    };
    if same_text(op, "gt") {
        return Some(
            match number {
                Some(d) => Some(FilterCondition::GreaterThan { field: copied(field), value: d }),
                None => None,
            },
        );
    }
    if same_text(op, "lt") {
        return Some(
            match number {
                Some(d) => Some(FilterCondition::LessThan { field: copied(field), value: d }),
                None => None,
            },
        );
    }
    if same_text(op, "gte") {
        return Some(
            match number {
                Some(d) => Some(FilterCondition::GreaterEqual { field: copied(field), value: d }),
                None => None,
            },
        );
    }
    if same_text(op, "lte") {
        return Some(
            match number {
                Some(d) => Some(FilterCondition::LessEqual { field: copied(field), value: d }),
                None => None,
            },
        );
    }
    None
}

/// Parse a filter (must/should/must_not, the simple form, or a single field condition)
pub fn parse_filter(filter_json: &Json) -> (r: Option<FilterCondition>)
    ensures
        condition_of(r) == filter_condition(filter_json@),
{
    let mut all: Vec<FilterCondition> = Vec::new();
    let must = parse_conditions_under(filter_json, "must");
    push_group(&mut all, must, false);
    let should = parse_conditions_under(filter_json, "should");
    push_group(&mut all, should, true);
    let must_not = parse_conditions_under(filter_json, "must_not");
    push_negated(&mut all, must_not);
    assert(conditions(all@) =~= clauses(filter_json@));
    if all.len() == 1 {
        assert(conditions(all@)[0] == all@[0]@);
        return all.pop();
    }
    if all.len() > 1 {
        proof {
            lemma_and(all);
        }
        return Some(FilterCondition::And(all));
    }
    match parse_simple(filter_json) {
        Some(c) => c,
        None => parse_field_condition(filter_json),
    }
}

/// The filter that JSON stands for.
pub open spec fn filter_of(filter: Option<JsonV>) -> Option<FilterConditionV> {
    match filter {
        Some(f) => filter_condition(f),
        None => None,
    }
}

/// What the filter of a request lets through, as a predicate; without one, everything.
pub open spec fn pass_json(filter: Option<JsonV>) -> spec_fn(PointV) -> bool {
    |p: PointV|
        match filter_of(filter) {
            Some(c) => passes(c, p),
            None => true,
        }
}

/// Reads the filter of a request.
pub fn read_filter(filter: &Option<Json>) -> (r: Option<PayloadFilter>)
    ensures
        filter_of(payload_of(*filter)) == match r {
            Some(f) => Some(f.condition@),
            None => None,
        },
{
    match filter {
        Some(f) => match parse_filter(f) {
            Some(c) => Some(PayloadFilter::new(c)),
            None => None,
        },
        None => None,
    }
}

/// A filter with several parts lets through what all its parts let through: every condition
/// under `must`, one of those under `should` if there are any, and none under `must_not`.
pub proof fn law_filter_parts(filter: JsonV, payload: JsonV)
    requires
        clauses(filter).len() > 0,
    ensures
        filter_condition(filter) is Some,
        filter_condition(filter)->0.holds(payload) == {
            &&& forall|i: int|
                0 <= i < conditions_under(filter, "must"@).len() ==> (#[trigger] conditions_under(
                    filter,
                    "must"@,
                )[i]).holds(payload)
            &&& conditions_under(filter, "should"@).len() == 0 || exists|i: int|
                0 <= i < conditions_under(filter, "should"@).len() && (#[trigger] conditions_under(
                    filter,
                    "should"@,
                )[i]).holds(payload)
            &&& forall|i: int|
                0 <= i < conditions_under(filter, "must_not"@).len() ==> !(#[trigger] conditions_under(
                    filter,
                    "must_not"@,
                )[i]).holds(payload)
        },
{
    let must = conditions_under(filter, "must"@);
    let should = conditions_under(filter, "should"@);
    let must_not = conditions_under(filter, "must_not"@);
    let all = clauses(filter);
    let a = together(must);
    let b = alternatives(should);
    let c = negated(must_not);
    let every = forall|i: int| 0 <= i < all.len() ==> (#[trigger] all[i]).holds(payload);
    let c1 = forall|i: int| 0 <= i < must.len() ==> (#[trigger] must[i]).holds(payload);
    let c2 = should.len() == 0 || exists|i: int| 0 <= i < should.len() && (#[trigger] should[i]).holds(payload);
    let c3 = forall|i: int| 0 <= i < must_not.len() ==> !(#[trigger] must_not[i]).holds(payload);
    lemma_holds_and(all, payload);
    lemma_holds_and(must, payload);
    lemma_holds_or(should, payload);
    if all.len() == 1 {
        assert(every == all[0].holds(payload));
    }
    assert(filter_condition(filter)->0.holds(payload) == every);
    if every {
        if must.len() == 1 {
            assert(all[0] == must[0]);
        } else if must.len() > 1 {
            assert(all[0] == FilterConditionV::And(must));
        }
        assert(c1);
        if should.len() == 1 {
            assert(all[a.len() as int] == should[0]);
        } else if should.len() > 1 {
            assert(all[a.len() as int] == FilterConditionV::Or(should));
        }
        assert(c2);
        assert forall|i: int| 0 <= i < must_not.len() implies !(#[trigger] must_not[i]).holds(payload) by {
            assert(all[a.len() + b.len() + i] == c[i]);
        }
    }
    if c1 && c2 && c3 {
        assert forall|i: int| 0 <= i < all.len() implies (#[trigger] all[i]).holds(payload) by {
            if i < a.len() {
                assert(all[i] == a[i]);
                if must.len() == 1 {
                    assert(all[i] == must[0]);
                }
            } else if i < a.len() + b.len() {
                assert(all[i] == b[i - a.len()]);
                if should.len() == 1 {
                    assert(all[i] == should[0]);
                }
            } else {
                let m = i - a.len() - b.len();
                assert(all[i] == c[m]);
                assert(!must_not[m].holds(payload));
            }
        }
    }
}

/// A condition that lists several values accepts each of them, and nothing else.
pub proof fn law_any_of_accepts_each(cond: JsonV, m: JsonV, any: Seq<JsonV>, key: Seq<char>, payload: JsonV)
    requires
        cond.get_text("key"@) == Some(key),
        cond.get_object("match"@) == Some(m),
        m.get("value"@) is None,
        m.get_array("any"@) == Some(any),
        any.len() > 0,
    ensures
        field_condition(cond) is Some,
        field_condition(cond)->0.holds(payload) == exists|i: int|
            0 <= i < any.len() && match payload.get(key) {
                Some(v) => v.same(#[trigger] any[i]),
                None => false,
            },
{
    let each = equals_each(key, any);
    lemma_holds_or(each, payload);
    let accepted = |i: int|
        match payload.get(key) {
            Some(v) => v.same(any[i]),
            None => false,
        };
    assert forall|i: int| 0 <= i < any.len() implies (#[trigger] each[i]).holds(payload) == accepted(i) by {
        reveal_with_fuel(FilterConditionV::holds, 2);
    }
    let one_holds = exists|i: int| 0 <= i < each.len() && (#[trigger] each[i]).holds(payload);
    let one_accepted = exists|i: int|
        0 <= i < any.len() && match payload.get(key) {
            Some(v) => v.same(#[trigger] any[i]),
            None => false,
        };
    if one_holds {
        let i = choose|i: int| 0 <= i < each.len() && (#[trigger] each[i]).holds(payload);
        assert(accepted(i));
        assert(any[i] == any[i]);
        assert(one_accepted);
    }
    if one_accepted {
        let i = choose|i: int|
            0 <= i < any.len() && match payload.get(key) {
                Some(v) => v.same(#[trigger] any[i]),
                None => false,
            };
        assert(accepted(i));
        assert(each[i].holds(payload));
        assert(one_holds);
    }
    if any.len() == 1 {
        assert(alternatives(each)[0] == each[0]);
        assert(one_holds == each[0].holds(payload));
    }
}

/// A range lets a number pass that is inside all bounds that are given, and nothing else.
pub proof fn law_range_keeps_all_bounds(cond: JsonV, range: JsonV, key: Seq<char>, payload: JsonV)
    requires
        cond.get_text("key"@) == Some(key),
        match_part(cond, key) is None,
        cond.get_object("range"@) == Some(range),
        bounds(range, key).len() > 0,
    ensures
        field_condition(cond) is Some,
        field_condition(cond)->0.holds(payload) == match payload.get_number(key) {
            Some(n) => {
                &&& range.get_number("gt"@) matches Some(b) ==> b.double.less(n.double)
                &&& range.get_number("gte"@) matches Some(b) ==> b.double.at_most(n.double)
                &&& range.get_number("lt"@) matches Some(b) ==> n.double.less(b.double)
                &&& range.get_number("lte"@) matches Some(b) ==> n.double.at_most(b.double)
            },
            None => false,
        },
{
    reveal_with_fuel(FilterConditionV::holds, 2);
    let all = bounds(range, key);
    lemma_holds_and(all, payload);
    let every = forall|i: int| 0 <= i < all.len() ==> (#[trigger] all[i]).holds(payload);
    if all.len() == 1 {
        assert(together(all)[0] == all[0]);
        assert(every == all[0].holds(payload));
    }
    assert(field_condition(cond)->0.holds(payload) == every);
    let a: int = if range.get_number("gt"@) is Some { 1 } else { 0 };
    let b: int = if range.get_number("gte"@) is Some { 1 } else { 0 };
    let c: int = if range.get_number("lt"@) is Some { 1 } else { 0 };
    let d: int = if range.get_number("lte"@) is Some { 1 } else { 0 };
    assert(all.len() == a + b + c + d);
    if let Some(n) = range.get_number("gt"@) {
        assert(all[0] == FilterConditionV::GreaterThan { field: key, value: n.double });
    }
    if let Some(n) = range.get_number("gte"@) {
        assert(all[a] == FilterConditionV::GreaterEqual { field: key, value: n.double });
    }
    if let Some(n) = range.get_number("lt"@) {
        assert(all[a + b] == FilterConditionV::LessThan { field: key, value: n.double });
    }
    if let Some(n) = range.get_number("lte"@) {
        assert(all[a + b + c] == FilterConditionV::LessEqual { field: key, value: n.double });
    }
}

} // verus!
