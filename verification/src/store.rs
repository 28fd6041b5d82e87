//! The points of a collection, each under its key.

use vstd::hash_map::StringHashMap;
use vstd::prelude::*;
use crate::json::Json;
use crate::point::{multivector_of, payload_of, MultiVector, Point, PointV, Vector};

verus! {

/// The points in a list.
pub open spec fn points_view(v: Seq<Point>) -> Seq<PointV> {
    Seq::new(v.len(), |i: int| v[i]@)
}

/// No two points have one key.
pub open spec fn keys_distinct(points: Seq<PointV>) -> bool {
    forall|i: int, j: int| 0 <= i < j < points.len() ==> (#[trigger] points[i]).key() != (#[trigger] points[j]).key()
}

/// Where the point under a key stands.
pub open spec fn place_of(points: Seq<PointV>, key: Seq<char>) -> Option<int>
    decreases points.len(),
{
    if points.len() == 0 {
        None
    } else if points.last().key() == key {
        Some(points.len() - 1)
    } else {
        place_of(points.drop_last(), key)
    }
}

/// The point under a key.
pub open spec fn point_under(points: Seq<PointV>, key: Seq<char>) -> Option<PointV> {
    match place_of(points, key) {
        Some(i) => Some(points[i]),
        None => None,
    }
}

/// The points after one was stored: in the place of the one with its key, or behind the others.
pub open spec fn stored(points: Seq<PointV>, point: PointV) -> Seq<PointV> {
    match place_of(points, point.key()) {
        Some(i) => points.update(i, point),
        None => points.push(point),
    }
}

/// The points after the one under a key was taken out: the last one moves into its place.
pub open spec fn taken_out(points: Seq<PointV>, key: Seq<char>) -> Seq<PointV> {
    match place_of(points, key) {
        Some(i) => points.update(i, points.last()).drop_last(),
        None => points,
    }
}

pub proof fn lemma_place_of(points: Seq<PointV>, key: Seq<char>)
    ensures
        match place_of(points, key) {
            Some(i) => 0 <= i < points.len() && points[i].key() == key,
            None => forall|j: int| 0 <= j < points.len() ==> (#[trigger] points[j]).key() != key,
        },
    decreases points.len(),
{
    if points.len() > 0 && points.last().key() != key {
        lemma_place_of(points.drop_last(), key);
        if place_of(points, key) is None {
            assert forall|j: int| 0 <= j < points.len() implies (#[trigger] points[j]).key() != key by {
                if j < points.len() - 1 {
                    assert(points.drop_last()[j] == points[j]);
                }
            }
        }
    }
}

/// Where keys are distinct a point stands where its key says.
pub proof fn lemma_place_is(points: Seq<PointV>, i: int)
    requires
        keys_distinct(points),
        0 <= i < points.len(),
    ensures
        place_of(points, points[i].key()) == Some(i),
{
    lemma_place_of(points, points[i].key());
    let j = place_of(points, points[i].key())->0;
    if i < j {
        assert(points[i].key() != points[j].key());
    } else if j < i {
        assert(points[j].key() != points[i].key());
    }
}

/// A point that was stored is what its key then leads to; every other key leads where it did.
pub proof fn law_stored_then_found(points: Seq<PointV>, point: PointV, key: Seq<char>)
    requires
        keys_distinct(points),
    ensures
        keys_distinct(stored(points, point)),
        point_under(stored(points, point), key) == if key == point.key() {
            Some(point)
        } else {
            point_under(points, key)
        },
{
    lemma_place_of(points, point.key());
    lemma_place_of(points, key);
    let after = stored(points, point);
    assert(keys_distinct(after)) by {
        assert forall|i: int, j: int| 0 <= i < j < after.len() implies (#[trigger] after[i]).key() != (
        #[trigger] after[j]).key() by {
            match place_of(points, point.key()) {
                Some(p) => {
                    assert(after[i].key() == points[i].key() && after[j].key() == points[j].key());
                    assert(points[i].key() != points[j].key());
                },
                None => {
                    assert(after[i] == points[i]);
                    if j < points.len() {
                        assert(after[j] == points[j]);
                    }
                },
            }
        }
    }
    lemma_place_of(after, key);
    if key == point.key() {
        match place_of(points, point.key()) {
            Some(p) => {
                assert(after[p] == point);
                lemma_place_is(after, p);
            },
            None => {
                assert(after[points.len() as int] == point);
                lemma_place_is(after, points.len() as int);
            },
        }
    } else {
        match place_of(points, key) {
            Some(p) => {
                assert(after[p] == points[p]);
                lemma_place_is(after, p);
            },
            None => {
                if let Some(q) = place_of(after, key) {
                    if q < points.len() {
                        assert(points[q].key() != key);
                    }
                }
            },
        }
    }
}

/// A key that was taken out leads nowhere; every other key leads where it did.
pub proof fn law_taken_out_then_missing(points: Seq<PointV>, key: Seq<char>, other: Seq<char>)
    requires
        keys_distinct(points),
    ensures
        keys_distinct(taken_out(points, key)),
        point_under(taken_out(points, key), other) == if other == key {
            None
        } else {
            point_under(points, other)
        },
{
    lemma_place_of(points, key);
    lemma_place_of(points, other);
    let after = taken_out(points, key);
    if let Some(p) = place_of(points, key) {
        let last = points.len() - 1;
        assert forall|i: int| 0 <= i < after.len() implies #[trigger] after[i] == if i == p {
            points[last]
        } else {
            points[i]
        } by {}
        assert(keys_distinct(after)) by {
            assert forall|i: int, j: int| 0 <= i < j < after.len() implies (#[trigger] after[i]).key() != (
            #[trigger] after[j]).key() by {
                if i == p {
                    assert(points[j].key() != points[last].key());
                } else if j == p {
                    assert(points[i].key() != points[last].key());
                } else {
                    assert(points[i].key() != points[j].key());
                }
            }
        }
        lemma_place_of(after, other);
        if other == key {
            if let Some(q) = place_of(after, other) {
                if q == p {
                    assert(points[p].key() != points[last].key());
                } else {
                    lemma_place_is(points, q);
                }
            }
        } else {
            match place_of(points, other) {
                Some(q) => {
                    if q == last {
                        assert(after[p] == points[q]);
                        lemma_place_is(after, p);
                    } else {
                        assert(after[q] == points[q]);
                        lemma_place_is(after, q);
                    }
                },
                None => {
                    if let Some(q) = place_of(after, other) {
                        assert(points[last].key() != other);
                        if q != p {
                            assert(points[q].key() != other);
                        }
                    }
                },
            }
        }
    }
}

/// Points in a list, with a table that says where each key stands.
pub struct PointStore {
    slots: Vec<Point>,
    index: StringHashMap<usize>,
}

impl View for PointStore {
    type V = Seq<PointV>;

    closed spec fn view(&self) -> Seq<PointV> {
        points_view(self.slots@)
    }
}

spec fn tells(index: Map<Seq<char>, usize>, points: Seq<PointV>) -> bool {
    &&& forall|i: int|
        0 <= i < points.len() ==> index.contains_key((#[trigger] points[i]).key()) && index[points[i].key()] == i
    &&& forall|key: Seq<char>| #[trigger]
        index.contains_key(key) ==> index[key] < points.len() && points[index[key] as int].key() == key
}

proof fn lemma_tells(index: Map<Seq<char>, usize>, points: Seq<PointV>)
    requires
        tells(index, points),
    ensures
        keys_distinct(points),
        forall|key: Seq<char>| #[trigger]
            place_of(points, key) == if index.contains_key(key) {
                Some(index[key] as int)
            } else {
                None
            },
{
    assert(keys_distinct(points)) by {
        assert forall|i: int, j: int| 0 <= i < j < points.len() implies (#[trigger] points[i]).key() != (
        #[trigger] points[j]).key() by {
            assert(index[points[i].key()] == i);
            assert(index[points[j].key()] == j);
        }
    }
    assert forall|key: Seq<char>| #[trigger] place_of(points, key) == if index.contains_key(key) {
        Some(index[key] as int)
    } else {
        None
    } by {
        lemma_place_of(points, key);
        if index.contains_key(key) {
            lemma_place_is(points, index[key] as int);
        }
    }
}

impl PointStore {
    pub closed spec fn wf(&self) -> bool {
        tells(self.index@, self@)
    }

    /// No two points of a store have one key.
    pub proof fn law_keys_distinct(&self)
        requires
            self.wf(),
        ensures
            keys_distinct(self@),
            self@.len() <= usize::MAX,
    {
        assert(self@.len() == self.slots.len());
        lemma_tells(self.index@, self@);
    }

    pub fn new() -> (r: PointStore)
        ensures
            r.wf(),
            r@ == Seq::<PointV>::empty(),
    {
        let r = PointStore { slots: Vec::new(), index: StringHashMap::new() };
        assert(r@ =~= Seq::<PointV>::empty());
        r
    }

    pub fn len(&self) -> (r: usize)
        ensures
            r == self@.len(),
    {
        self.slots.len()
    }

    pub fn points<'a>(&'a self) -> (r: &'a Vec<Point>)
        requires
            self.wf(),
        ensures
            points_view(r@) == self@,
            keys_distinct(self@),
    {
        proof {
            lemma_tells(self.index@, self@);
        }
        &self.slots
    }

    pub fn at<'a>(&'a self, i: usize) -> (r: &'a Point)
        requires
            i < self@.len(),
        ensures
            r@ == self@[i as int],
    {
        &self.slots[i]
    }

    /// Where the point under a key stands.
    pub fn find(&self, key: &str) -> (r: Option<usize>)
        requires
            self.wf(),
        ensures
            place_of(self@, key@) == match r {
                Some(i) => Some(i as int),
                None => None,
            },
            r matches Some(i) ==> i < self@.len() && self@[i as int].key() == key@,
    {
        proof {
            lemma_tells(self.index@, self@);
        }
        match self.index.get(key) {
            Some(i) => Some(*i),
            None => None,
        }
    }

    /// The point under a key.
    pub fn get<'a>(&'a self, key: &str) -> (r: Option<&'a Point>)
        requires
            self.wf(),
        ensures
            point_under(self@, key@) == match r {
                Some(p) => Some(p@),
                None => None,
            },
    {
        match self.find(key) {
            Some(i) => Some(&self.slots[i]),
            None => None,
        }
    }

    /// Puts a point with the same key in the place of one that is there.
    pub fn replace(&mut self, at: usize, point: Point)
        requires
            old(self).wf(),
            at < old(self)@.len(),
            point@.key() == old(self)@[at as int].key(),
        ensures
            final(self).wf(),
            final(self)@ == old(self)@.update(at as int, point@),
    {
        let ghost before = self@;
        self.slots[at] = point;
        proof {
            let after = self@;
            assert(after =~= before.update(at as int, point@));
            assert forall|i: int| 0 <= i < after.len() implies self.index@.contains_key((#[trigger] after[i]).key())
                && self.index@[after[i].key()] == i by {
                assert(after[i].key() == before[i].key());
            }
            assert forall|key: Seq<char>| #[trigger] self.index@.contains_key(key) implies self.index@[key]
                < after.len() && after[self.index@[key] as int].key() == key by {
                assert(after[self.index@[key] as int].key() == before[self.index@[key] as int].key());
            }
        }
    }

    proof fn lemma_same_keys(self, before: PointStore)
        requires
            before.wf(),
            self.index == before.index,
            self@.len() == before@.len(),
            forall|i: int| 0 <= i < self@.len() ==> (#[trigger] self@[i]).key() == before@[i].key(),
        ensures
            self.wf(),
    {
        let index = self.index@;
        let points = self@;
        assert forall|i: int| 0 <= i < points.len() implies index.contains_key((#[trigger] points[i]).key())
            && index[points[i].key()] == i by {
            assert(points[i].key() == before@[i].key());
        }
        assert forall|key: Seq<char>| #[trigger] index.contains_key(key) implies index[key] < points.len()
            && points[index[key] as int].key() == key by {
            assert(points[index[key] as int].key() == before@[index[key] as int].key());
        }
    }

    /// Takes the payload of a point away.
    pub fn take_payload(&mut self, at: usize) -> (r: Option<Json>)
        requires
            old(self).wf(),
            at < old(self)@.len(),
        ensures
            final(self).wf(),
            payload_of(r) == old(self)@[at as int].payload,
            final(self)@ == old(self)@.update(at as int, (PointV { payload: None, ..old(self)@[at as int] })),
    {
        let ghost before = *self;
        let r = self.slots[at].payload.take();
        proof {
            assert(self@ =~= before@.update(at as int, (PointV { payload: None, ..before@[at as int] })));
            self.lemma_same_keys(before);
        }
        r
    }

    /// Gives a point a payload, or none.
    pub fn set_payload(&mut self, at: usize, payload: Option<Json>)
        requires
            old(self).wf(),
            at < old(self)@.len(),
        ensures
            final(self).wf(),
            final(self)@ == old(self)@.update(
                at as int,
                (PointV { payload: payload_of(payload), ..old(self)@[at as int] }),
            ),
    {
        let ghost before = *self;
        self.slots[at].payload = payload;
        proof {
            assert(self@ =~= before@.update(
                at as int,
                (PointV { payload: payload_of(payload), ..before@[at as int] }),
            ));
            self.lemma_same_keys(before);
        }
    }

    /// Gives a point a dense vector.
    pub fn set_vector(&mut self, at: usize, vector: Vector)
        requires
            old(self).wf(),
            at < old(self)@.len(),
        ensures
            final(self).wf(),
            final(self)@ == old(self)@.update(at as int, (PointV { vector: vector@, ..old(self)@[at as int] })),
    {
        let ghost before = *self;
        self.slots[at].vector = vector;
        proof {
            assert(self@ =~= before@.update(at as int, (PointV { vector: vector@, ..before@[at as int] })));
            self.lemma_same_keys(before);
        }
    }

    /// Gives a point a multivector, or none.
    pub fn set_multivector(&mut self, at: usize, multivector: Option<MultiVector>)
        requires
            old(self).wf(),
            at < old(self)@.len(),
        ensures
            final(self).wf(),
            final(self)@ == old(self)@.update(
                at as int,
                (PointV { multivector: multivector_of(multivector), ..old(self)@[at as int] }),
            ),
    {
        let ghost before = *self;
        self.slots[at].multivector = multivector;
        proof {
            assert(self@ =~= before@.update(
                at as int,
                (PointV { multivector: multivector_of(multivector), ..before@[at as int] }),
            ));
            self.lemma_same_keys(before);
        }
    }

    /// Stores a point under its key.
    pub fn insert(&mut self, point: Point)
        requires
            old(self).wf(),
        ensures
            final(self).wf(),
            final(self)@ == stored(old(self)@, point@),
    {
        let key = point.id.key();
        match self.find(key.as_str()) {
            Some(i) => {
                self.replace(i, point);
            },
            None => {
                let ghost before = self@;
                let ghost index = self.index@;
                let at: usize = self.slots.len();
                proof {
                    lemma_place_of(before, key@);
                }
                self.slots.push(point);
                self.index.insert(key, at);
                proof {
                    let after = self@;
                    assert(after =~= before.push(point@));
                    assert forall|i: int| 0 <= i < after.len() implies self.index@.contains_key(
                        (#[trigger] after[i]).key(),
                    ) && self.index@[after[i].key()] == i by {
                        if i < before.len() {
                            assert(after[i] == before[i]);
                            assert(index.contains_key(before[i].key()));
                        }
                    }
                    assert forall|k: Seq<char>| #[trigger] self.index@.contains_key(k) implies self.index@[k]
                        < after.len() && after[self.index@[k] as int].key() == k by {
                        if k != point@.key() {
                            assert(index.contains_key(k));
                            assert(after[index[k] as int] == before[index[k] as int]);
                        }
                    }
                }
            },
        }
    }

    /// Takes out the point under a key.
    pub fn remove(&mut self, key: &str) -> (r: bool)
        requires
            old(self).wf(),
        ensures
            final(self).wf(),
            final(self)@ == taken_out(old(self)@, key@),
            r == (place_of(old(self)@, key@) is Some),
    {
        match self.find(key) {
            Some(i) => {
                let ghost before = self@;
                let ghost index = self.index@;
                let last: usize = self.slots.len() - 1;
                let last_key = self.slots[last].id.key();
                proof {
                    lemma_tells(index, before);
                }
                self.slots.swap_remove(i);
                self.index.remove(key);
                if i != last {
                    self.index.insert(last_key, i);
                }
                proof {
                    let after = self@;
                    assert(after =~= before.update(i as int, before.last()).drop_last());
                    assert forall|j: int| 0 <= j < after.len() implies self.index@.contains_key(
                        (#[trigger] after[j]).key(),
                    ) && self.index@[after[j].key()] == j by {
                        if j == i {
                            assert(after[j] == before[last as int]);
                        } else {
                            assert(after[j] == before[j]);
                            assert(index.contains_key(before[j].key()));
                            if j < i {
                                assert(before[j].key() != before[i as int].key());
                            } else {
                                assert(before[i as int].key() != before[j].key());
                            }
                            assert(before[j].key() != before[last as int].key());
                        }
                    }
                    assert forall|k: Seq<char>| #[trigger] self.index@.contains_key(k) implies self.index@[k]
                        < after.len() && after[self.index@[k] as int].key() == k by {
                        if i != last && k == before[last as int].key() {
                            assert(after[i as int] == before[last as int]);
                        } else {
                            assert(index.contains_key(k));
                            let p = index[k] as int;
                            assert(before[p].key() == k);
                            assert(p != i);
                            assert(p != last);
                            assert(after[p] == before[p]);
                        }
                    }
                }
                true
            },
            None => false,
        }
    }
}

} // verus!
