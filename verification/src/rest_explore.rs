//! Requests that search from examples, or that group what a search finds.

use vstd::prelude::*;
use crate::api::{
    hits_of, json_key, key_of_json, record, record_of, show_hits, shown_hits, ApiError, ApiErrorV,
    Hit, RecordV, Shown,
};
use crate::collection::{searches, Collection, CollectionV};
use crate::filter::PayloadFilter;
use crate::hnsw::scored_of;
use crate::ieee::Real;
use crate::input::{numbers, parse_numbers};
use crate::json::{lemma_array, Json, JsonV};
use crate::kernels::Kernels;
use crate::lists::lemma_prefix_grows;
use crate::point::{copy_reals, payload_of, Point, PointV, Vector};
use crate::rest_read::{amount, amount_or, flag, flag_or};
use crate::rest_search::{first, hits_answer, read_shown, shown_by, unfiltered};
use crate::scoring::pass_of;
use crate::store::point_under;
use crate::text::{copied, same_text};

verus! {

/// Searches without a filter.
fn search_all<K: Kernels>(collection: &mut Collection, k: &K, query: &Vector, limit: usize) -> (r: Vec<(Point, Real)>)
    requires
        old(collection).wf(),
    ensures
        final(collection).wf(),
        searches(k, old(collection)@, query@, limit, unfiltered(), final(collection)@, scored_of(r@)),
{
    assert(pass_of(None::<&PayloadFilter>) =~= unfiltered());
    collection.search(k, query, limit, None::<&PayloadFilter>)
}

// ---------------------------------------------------------------------------------------------
// Discovery

/// The vector that a target stands for: a list of numbers, or the vector of the point that it
/// identifies.
pub open spec fn target_vector(points: Seq<PointV>, target: Option<JsonV>) -> Option<Seq<Real>> {
    match target {
        Some(JsonV::Array(list)) => numbers(list),
        Some(v) => match key_of_json(v) {
            Some(key) => match point_under(points, key) {
                Some(p) => Some(p.vector),
                None => None,
            },
            None => None,
        },
        None => None,
    }
}

/// What is found near a vector, as it is shown.
pub open spec fn found_near<K: Kernels>(
    k: &K,
    before: CollectionV,
    query: Seq<Real>,
    limit: usize,
    shown: Shown,
    after: CollectionV,
    r: Seq<(RecordV, Real)>,
) -> bool {
    exists|found: Seq<(PointV, Real)>| #[trigger]
        searches(k, before, query, limit, unfiltered(), after, found) && r == shown_hits(found, shown)
}

/// What a discovery request comes to: a search near its target.
pub open spec fn discover_answers<K: Kernels>(
    k: &K,
    before: CollectionV,
    target: Option<JsonV>,
    limit: usize,
    with_payload: bool,
    after: CollectionV,
    r: Result<Seq<(RecordV, Real)>, ApiErrorV>,
) -> bool {
    match target_vector(before.points, target) {
        None => after == before && r == Err::<Seq<(RecordV, Real)>, ApiErrorV>(ApiErrorV::TargetRequired),
        Some(query) => r is Ok && found_near(
            k,
            before,
            query,
            limit,
            (Shown { payload: with_payload, vector: false, multivector: false }),
            after,
            r->Ok_0,
        ),
    }
}

fn read_target(collection: &Collection, target: &Option<Json>) -> (r: Option<Vector>)
    requires
        collection.wf(),
    ensures
        target_vector(collection@.points, payload_of(*target)) == match r {
            Some(v) => Some(v@),
            None => None,
        },
{
    match target {
        Some(Json::Array(list)) => {
            proof {
                lemma_array(*list);
            }
            match parse_numbers(list) {
                Some(v) => Some(Vector::new(v)),
                None => None,
            }
        },
        Some(v) => match json_key(v) {
            Some(key) => match collection.get(key.as_str()) {
                Some(p) => Some(p.vector),
                None => None,
            },
            None => None,
        },
        None => None,
    }
}

/// Discover points near a target
pub fn discover_points<K: Kernels>(
    collection: &mut Collection,
    k: &K,
    target: &Option<Json>,
    limit: Option<usize>,
    with_payload: Option<bool>,
) -> (r: Result<Vec<Hit>, ApiError>)
    requires
        old(collection).wf(),
    ensures
        final(collection).wf(),
        discover_answers(
            k,
            old(collection)@,
            payload_of(*target),
            amount(limit, 10),
            flag(with_payload, true),
            final(collection)@,
            hits_answer(r),
        ),
{
    let query = match read_target(collection, target) {
        Some(v) => v,
        None => {
            return Err(ApiError::TargetRequired);
        },
    };
    let most: usize = amount_or(limit, 10);
    let shown = Shown { payload: flag_or(with_payload, true), vector: false, multivector: false };
    let ghost before = collection@;
    let found = search_all(collection, k, &query, most);
    let hits = show_hits(&found, shown);
    assert(found_near(k, before, query@, most, shown, collection@, hits_of(hits@)));
    Ok(hits)
}

// ---------------------------------------------------------------------------------------------
// Groups

/// A group of found points: what they have in common, and the points.
pub struct Group {
    pub id: String,
    pub hits: Vec<Hit>,
}

#[verifier::ext_equal]
pub struct GroupV {
    pub id: Seq<char>,
    pub hits: Seq<(RecordV, Real)>,
}

impl View for Group {
    type V = GroupV;

    open spec fn view(&self) -> GroupV {
        GroupV { id: self.id@, hits: hits_of(self.hits@) }
    }
}

pub open spec fn groups_of(v: Seq<Group>) -> Seq<GroupV> {
    Seq::new(v.len(), |i: int| v[i]@)
}

/// The group of a point: what its payload has at a field, if that is a text or a number.
pub open spec fn group_key(point: PointV, field: Seq<char>) -> Seq<char> {
    match point.payload {
        Some(p) => match p.get(field) {
            Some(v) => match key_of_json(v) {
                Some(key) => key,
                None => "unknown"@,
            },
            None => "unknown"@,
        },
        None => "unknown"@,
    }
}

/// Where a group stands.
pub open spec fn group_at(groups: Seq<GroupV>, id: Seq<char>) -> Option<int>
    decreases groups.len(),
{
    if groups.len() == 0 {
        None
    } else if groups.last().id == id {
        Some(groups.len() - 1)
    } else {
        group_at(groups.drop_last(), id)
    }
}

/// A group after a point came to it: there is room for `size`.
pub open spec fn group_with(group: GroupV, hit: (RecordV, Real), size: usize) -> GroupV {
    if group.hits.len() < size {
        GroupV { hits: group.hits.push(hit), ..group }
    } else {
        group
    }
}

/// The groups after a point came: to its group, or to a new one behind the others.
pub open spec fn grouped(groups: Seq<GroupV>, id: Seq<char>, hit: (RecordV, Real), size: usize) -> Seq<GroupV> {
    match group_at(groups, id) {
        Some(i) => groups.update(i, group_with(groups[i], hit, size)),
        None => groups.push(group_with(GroupV { id, hits: Seq::empty() }, hit, size)),
    }
}

/// Whether there are enough groups and all are full.
pub open spec fn complete(groups: Seq<GroupV>, limit: usize, size: usize) -> bool {
    groups.len() >= limit && forall|i: int| 0 <= i < groups.len() ==> (#[trigger] groups[i]).hits.len() >= size
}

/// The groups of what was found, in the order in which they come up; once there are enough full
/// ones nothing more is taken.
pub open spec fn grouping(
    found: Seq<(PointV, Real)>,
    field: Seq<char>,
    limit: usize,
    size: usize,
    shown: Shown,
) -> Seq<GroupV>
    decreases found.len(),
{
    if found.len() == 0 {
        Seq::empty()
    } else {
        let before = grouping(found.drop_last(), field, limit, size, shown);
        if found.len() > 1 && complete(before, limit, size) {
            before
        } else {
            grouped(
                before,
                group_key(found.last().0, field),
                (record_of(found.last().0, shown, JsonV::Null), found.last().1),
                size,
            )
        }
    }
}

/// What grouping a search comes to: twice as many points are searched for as there is room for,
/// and at most `limit` groups are shown.
pub open spec fn groups_answer<K: Kernels>(
    k: &K,
    before: CollectionV,
    query: Seq<Real>,
    field: Seq<char>,
    limit: usize,
    size: usize,
    shown: Shown,
    after: CollectionV,
    r: Seq<GroupV>,
) -> bool {
    exists|found: Seq<(PointV, Real)>| #[trigger]
        searches(k, before, query, (limit * size * 2) as usize, unfiltered(), after, found) && r
            == first(grouping(found, field, limit, size, shown), limit as nat)
}

fn read_group_key(point: &Point, field: &str) -> (r: String)
    ensures
        r@ == group_key(point@, field@),
{
    match &point.payload {
        Some(p) => match p.get(field) {
            Some(v) => match json_key(v) {
                Some(key) => key,
                None => copied("unknown"),
            },
            None => copied("unknown"),
        },
        None => copied("unknown"),
    }
}

fn find_group(groups: &Vec<Group>, id: &str) -> (r: Option<usize>)
    ensures
        group_at(groups_of(groups@), id@) == match r {
            Some(i) => Some(i as int),
            None => None,
        },
        r matches Some(i) ==> i < groups@.len(),
{
    let ghost all = groups_of(groups@);
    let mut i: usize = groups.len();
    assert(all.take(i as int) =~= all);
    while i > 0
        invariant
            i <= groups@.len(),
            all == groups_of(groups@),
            group_at(all, id@) == group_at(all.take(i as int), id@),
        decreases i,
    {
        proof {
            lemma_prefix_grows(all, i - 1);
            assert(all[i - 1] == groups@[i - 1]@);
        }
        i -= 1;
        if same_text(groups[i].id.as_str(), id) {
            return Some(i);
        }
    }
    None
}

fn is_complete(groups: &Vec<Group>, limit: usize, size: usize) -> (r: bool)
    ensures
        r == complete(groups_of(groups@), limit, size),
{
    if groups.len() < limit {
        return false;
    }
    let mut i: usize = 0;
    while i < groups.len()
        invariant
            i <= groups@.len(),
            forall|j: int| 0 <= j < i ==> (#[trigger] groups_of(groups@)[j]).hits.len() >= size,
        decreases groups@.len() - i,
    {
        if groups[i].hits.len() < size {
            assert(groups_of(groups@)[i as int].hits.len() < size);
            return false;
        }
        i += 1;
    }
    true
}

/// Puts a found point into its group.
fn add_to_group(groups: &mut Vec<Group>, id: String, point: &Point, score: Real, size: usize, shown: Shown)
    ensures
        groups_of(final(groups)@) == grouped(
            groups_of(old(groups)@),
            id@,
            (record_of(point@, shown, JsonV::Null), score),
            size,
        ),
{
    let ghost before = groups_of(groups@);
    let ghost hit = (record_of(point@, shown, JsonV::Null), score);
    match find_group(groups, id.as_str()) {
        Some(i) => {
            if groups[i].hits.len() < size {
                let ghost hits0 = groups@[i as int].hits@;
                groups[i].hits.push(Hit { record: record(point, shown, Json::Null), score });
                assert(hits_of(groups@[i as int].hits@) =~= hits_of(hits0).push(hit));
                assert(groups_of(groups@) =~= before.update(i as int, group_with(before[i as int], hit, size)));
            } else {
                assert(groups_of(groups@) =~= before.update(i as int, group_with(before[i as int], hit, size)));
            }
        },
        None => {
            let ghost id_v = id@;
            let mut hits: Vec<Hit> = Vec::new();
            assert(hits_of(hits@) =~= Seq::<(RecordV, Real)>::empty());
            if hits.len() < size {
                hits.push(Hit { record: record(point, shown, Json::Null), score });
                assert(hits_of(hits@) =~= Seq::<(RecordV, Real)>::empty().push(hit));
            }
            let group = Group { id, hits };
            let ghost gv = group@;
            assert(gv =~= group_with(GroupV { id: id_v, hits: Seq::empty() }, hit, size));
            groups.push(group);
            assert(groups_of(groups@) =~= before.push(gv));
        },
    }
}

proof fn lemma_complete_stays(
    found: Seq<(PointV, Real)>,
    field: Seq<char>,
    limit: usize,
    size: usize,
    shown: Shown,
    i: int,
)
    requires
        1 <= i <= found.len(),
        complete(grouping(found.take(i), field, limit, size, shown), limit, size),
    ensures
        grouping(found, field, limit, size, shown) == grouping(found.take(i), field, limit, size, shown),
    decreases found.len() - i,
{
    if i < found.len() {
        lemma_prefix_grows(found, i);
        lemma_complete_stays(found, field, limit, size, shown, i + 1);
    } else {
        assert(found.take(i) =~= found);
    }
}

/// Groups are in order: no two have one identifier, and none has more points than there is room
/// for.
pub open spec fn groups_in_order(groups: Seq<GroupV>, size: usize) -> bool {
    &&& forall|i: int, j: int| 0 <= i < j < groups.len() ==> (#[trigger] groups[i]).id != (#[trigger] groups[j]).id
    &&& forall|i: int| 0 <= i < groups.len() ==> (#[trigger] groups[i]).hits.len() <= size
}

pub proof fn lemma_group_at(groups: Seq<GroupV>, id: Seq<char>)
    ensures
        match group_at(groups, id) {
            Some(i) => 0 <= i < groups.len() && groups[i].id == id,
            None => forall|j: int| 0 <= j < groups.len() ==> (#[trigger] groups[j]).id != id,
        },
    decreases groups.len(),
{
    if groups.len() > 0 && groups.last().id != id {
        lemma_group_at(groups.drop_last(), id);
        if group_at(groups, id) is None {
            assert forall|j: int| 0 <= j < groups.len() implies (#[trigger] groups[j]).id != id by {
                if j < groups.len() - 1 {
                    assert(groups.drop_last()[j] == groups[j]);
                }
            }
        }
    }
}

proof fn lemma_grouped_in_order(groups: Seq<GroupV>, id: Seq<char>, hit: (RecordV, Real), size: usize)
    requires
        groups_in_order(groups, size),
    ensures
        groups_in_order(grouped(groups, id, hit, size), size),
{
    lemma_group_at(groups, id);
    let after = grouped(groups, id, hit, size);
    assert forall|i: int, j: int| 0 <= i < j < after.len() implies (#[trigger] after[i]).id != (#[trigger] after[j]).id by {
        assert(groups[i].id == after[i].id);
        if j < groups.len() {
            assert(groups[j].id == after[j].id);
        }
    }
    assert forall|i: int| 0 <= i < after.len() implies (#[trigger] after[i]).hits.len() <= size by {
        if i < groups.len() {
            assert(groups[i].hits.len() <= size);
        }
    }
}

/// What was found comes in groups that are in order, whatever it is.
pub proof fn law_groups_in_order(found: Seq<(PointV, Real)>, field: Seq<char>, limit: usize, size: usize, shown: Shown)
    ensures
        groups_in_order(grouping(found, field, limit, size, shown), size),
        groups_in_order(first(grouping(found, field, limit, size, shown), limit as nat), size),
        first(grouping(found, field, limit, size, shown), limit as nat).len() <= limit,
    decreases found.len(),
{
    let all = grouping(found, field, limit, size, shown);
    if found.len() > 0 {
        law_groups_in_order(found.drop_last(), field, limit, size, shown);
        let before = grouping(found.drop_last(), field, limit, size, shown);
        lemma_grouped_in_order(
            before,
            group_key(found.last().0, field),
            (record_of(found.last().0, shown, JsonV::Null), found.last().1),
            size,
        );
    }
    let some = first(all, limit as nat);
    assert forall|i: int, j: int| 0 <= i < j < some.len() implies (#[trigger] some[i]).id != (#[trigger] some[j]).id by {
        assert(all[i].id != all[j].id);
    }
    assert forall|i: int| 0 <= i < some.len() implies (#[trigger] some[i]).hits.len() <= size by {
        assert(all[i].hits.len() <= size);
    }
}

/// Groups what was found.
pub fn group_found(
    found: &Vec<(Point, Real)>,
    field: &str,
    limit: usize,
    size: usize,
    shown: Shown,
) -> (r: Vec<Group>)
    ensures
        groups_of(r@) == first(
            grouping(scored_of(found@), field@, limit, size, shown),
            limit as nat,
        ),
{
    let ghost all = scored_of(found@);
    let mut groups: Vec<Group> = Vec::new();
    let mut i: usize = 0;
    let mut full = false;
    assert(groups_of(groups@) =~= grouping(all.take(0), field@, limit, size, shown));
    while i < found.len() && !full
        invariant
            i <= found@.len(),
            all == scored_of(found@),
            groups_of(groups@) == grouping(all.take(i as int), field@, limit, size, shown),
            full ==> i >= 1,
            i >= 1 ==> full == complete(groups_of(groups@), limit, size),
        decreases found@.len() - i,
    {
        proof {
            lemma_prefix_grows(all, i as int);
        }
        let point = &found[i].0;
        let id = read_group_key(point, field);
        add_to_group(&mut groups, id, point, found[i].1, size, shown);
        full = is_complete(&groups, limit, size);
        i += 1;
    }
    proof {
        if full {
            lemma_complete_stays(all, field@, limit, size, shown, i as int);
        } else {
            assert(all.take(i as int) =~= all);
        }
    }
    let ghost everything = groups@;
    if groups.len() > limit {
        groups.truncate(limit);
        assert(groups_of(groups@) =~= groups_of(everything).take(limit as int));
    }
    groups
}

/// A request to group what a search finds by a field.
pub struct GroupsRequest {
    pub group_by: String,
    pub limit: Option<usize>,
    pub group_size: Option<usize>,
    pub with_payload: Option<bool>,
    pub with_vector: Option<bool>,
}

/// How many points a request to group them looks for.
pub open spec fn groups_span(req: GroupsRequest) -> int {
    amount(req.limit, 5) * amount(req.group_size, 3) * 2
}

/// Search points grouped by a payload field
pub fn search_groups<K: Kernels>(
    collection: &mut Collection,
    k: &K,
    vector: &Vec<Real>,
    req: &GroupsRequest,
) -> (r: Vec<Group>)
    requires
        old(collection).wf(),
        groups_span(*req) <= usize::MAX,
    ensures
        final(collection).wf(),
        groups_answer(
            k,
            old(collection)@,
            vector@,
            req.group_by@,
            amount(req.limit, 5),
            amount(req.group_size, 3),
            shown_by(req.with_payload, req.with_vector),
            final(collection)@,
            groups_of(r@),
        ),
{
    let limit: usize = amount_or(req.limit, 5);
    let size: usize = amount_or(req.group_size, 3);
    let shown = read_shown(req.with_payload, req.with_vector);
    proof {
        assert(limit * size <= limit * size * 2);
    }
    let room: usize = limit * size;
    let query = Vector::new(copy_reals(vector));
    let found = search_all(collection, k, &query, room * 2);
    group_found(&found, req.group_by.as_str(), limit, size, shown)
}

/// The view of groups, or of a refusal.
pub open spec fn groups_or_refusal(r: Result<Vec<Group>, ApiError>) -> Result<Seq<GroupV>, ApiErrorV> {
    match r {
        Ok(v) => Ok(groups_of(v@)),
        Err(e) => Err(e@),
    }
}

/// What a query with grouping comes to: the query must be a list of numbers.
pub open spec fn query_groups_answers<K: Kernels>(
    k: &K,
    before: CollectionV,
    query: JsonV,
    req: GroupsRequest,
    after: CollectionV,
    r: Result<Seq<GroupV>, ApiErrorV>,
) -> bool {
    match query {
        JsonV::Array(list) => match numbers(list) {
            Some(vector) => r is Ok && groups_answer(
                k,
                before,
                vector,
                req.group_by@,
                amount(req.limit, 5),
                amount(req.group_size, 3),
                shown_by(req.with_payload, req.with_vector),
                after,
                r->Ok_0,
            ),
            None => after == before && r == Err::<Seq<GroupV>, ApiErrorV>(ApiErrorV::InvalidQueryVector),
        },
        _ => after == before && r == Err::<Seq<GroupV>, ApiErrorV>(ApiErrorV::QueryNotArray),
    }
}

/// Query points with grouping
pub fn query_groups<K: Kernels>(collection: &mut Collection, k: &K, query: &Json, req: &GroupsRequest) -> (r: Result<
    Vec<Group>,
    ApiError,
>)
    requires
        old(collection).wf(),
        query@ is Array && numbers(query@->Array_0) is Some ==> groups_span(*req) <= usize::MAX,
    ensures
        final(collection).wf(),
        query_groups_answers(k, old(collection)@, query@, *req, final(collection)@, groups_or_refusal(r)),
{
    match query.as_array() {
        Some(list) => match parse_numbers(list) {
            Some(vector) => Ok(search_groups(collection, k, &vector, req)),
            None => Err(ApiError::InvalidQueryVector),
        },
        None => Err(ApiError::QueryNotArray),
    }
}

} // verus!
