//! Named entries kept in a list: the shape of a JSON object, of the text documents of a
//! collection and of its field indexes.
//!
//! A name is looked up from the end of the list, so that of two entries with one name the later
//! one counts.

use vstd::prelude::*;
use crate::text::same_text;

verus! {

/// Where the last entry named `key` stands.
pub open spec fn last_at<V>(s: Seq<(Seq<char>, V)>, key: Seq<char>) -> Option<int>
    decreases s.len(),
{
    if s.len() == 0 {
        None
    } else if s.last().0 == key {
        Some(s.len() - 1)
    } else {
        last_at(s.drop_last(), key)
    }
}

/// The value that the name `key` stands for.
pub open spec fn lookup<V>(s: Seq<(Seq<char>, V)>, key: Seq<char>) -> Option<V> {
    match last_at(s, key) {
        Some(i) => Some(s[i].1),
        None => None,
    }
}

/// The entries after `key` was given the value `v`: in its place if the name is there, otherwise
/// at the end.
pub open spec fn put<V>(s: Seq<(Seq<char>, V)>, key: Seq<char>, v: V) -> Seq<(Seq<char>, V)> {
    match last_at(s, key) {
        Some(i) => s.update(i, (key, v)),
        None => s.push((key, v)),
    }
}

/// The entries that are not named `key`, in their order.
pub open spec fn without<V>(s: Seq<(Seq<char>, V)>, key: Seq<char>) -> Seq<(Seq<char>, V)>
    decreases s.len(),
{
    if s.len() == 0 {
        Seq::empty()
    } else if s.last().0 == key {
        without(s.drop_last(), key)
    } else {
        without(s.drop_last(), key).push(s.last())
    }
}

/// No two entries have one name.
pub open spec fn names_distinct<V>(s: Seq<(Seq<char>, V)>) -> bool {
    forall|i: int, j: int| 0 <= i < j < s.len() ==> (#[trigger] s[i]).0 != (#[trigger] s[j]).0
}

pub proof fn lemma_last_at<V>(s: Seq<(Seq<char>, V)>, key: Seq<char>)
    ensures
        match last_at(s, key) {
            Some(i) => 0 <= i < s.len() && s[i].0 == key && forall|j: int|
                i < j < s.len() ==> (#[trigger] s[j]).0 != key,
            None => forall|j: int| 0 <= j < s.len() ==> (#[trigger] s[j]).0 != key,
        },
    decreases s.len(),
{
    if s.len() > 0 && s.last().0 != key {
        lemma_last_at(s.drop_last(), key);
        assert forall|j: int|
            (match last_at(s, key) {
                Some(i) => i,
                None => -1,
            }) < j < s.len() implies (#[trigger] s[j]).0 != key by {
            if j < s.len() - 1 {
                assert(s.drop_last()[j] == s[j]);
            }
        }
    }
}

/// An entry named `key` with none of that name behind it is the one that `last_at` finds.
pub proof fn lemma_last_at_is<V>(s: Seq<(Seq<char>, V)>, key: Seq<char>, i: int)
    requires
        0 <= i < s.len(),
        s[i].0 == key,
        forall|j: int| i < j < s.len() ==> (#[trigger] s[j]).0 != key,
    ensures
        last_at(s, key) == Some(i),
{
    lemma_last_at(s, key);
}

/// What is put under a name is what the name then stands for.
pub proof fn law_put_then_lookup<V>(s: Seq<(Seq<char>, V)>, key: Seq<char>, v: V)
    ensures
        lookup(put(s, key, v), key) == Some(v),
{
    lemma_last_at(s, key);
    let t = put(s, key, v);
    match last_at(s, key) {
        Some(i) => {
            assert forall|j: int| i < j < t.len() implies (#[trigger] t[j]).0 != key by {
                assert(t[j] == s[j]);
            }
            lemma_last_at_is(t, key, i);
        },
        None => {
            lemma_last_at_is(t, key, s.len() as int);
        },
    }
}

/// Putting a value under one name leaves every other name as it was.
pub proof fn law_put_leaves_others<V>(s: Seq<(Seq<char>, V)>, key: Seq<char>, v: V, other: Seq<char>)
    requires
        other != key,
    ensures
        lookup(put(s, key, v), other) == lookup(s, other),
{
    lemma_last_at(s, key);
    lemma_last_at(s, other);
    let t = put(s, key, v);
    lemma_last_at(t, other);
    match (last_at(s, other), last_at(t, other)) {
        (Some(i), Some(j)) => {
            assert(t[i].0 == other);
            assert(j < s.len());
            assert(s[j].0 == other);
        },
        (Some(i), None) => {
            assert(t[i].0 == other);
        },
        (None, Some(j)) => {
            assert(t[j].0 == other);
            assert(j < s.len());
            assert(s[j].0 == other);
        },
        (None, None) => {},
    }
}

/// A name that was removed stands for nothing, and no other name is touched.
pub proof fn law_without_lookup<V>(s: Seq<(Seq<char>, V)>, key: Seq<char>, other: Seq<char>)
    ensures
        lookup(without(s, key), other) == if other == key {
            None
        } else {
            lookup(s, other)
        },
    decreases s.len(),
{
    if s.len() > 0 {
        law_without_lookup(s.drop_last(), key, other);
        lemma_last_at(s.drop_last(), other);
        if s.last().0 == key {
            if other != key {
                match last_at(s.drop_last(), other) {
                    Some(i) => {
                        assert(s.drop_last()[i] == s[i]);
                    },
                    None => {},
                }
            }
        } else {
            let t = without(s.drop_last(), key);
            assert(t.push(s.last()).drop_last() =~= t);
            lemma_last_at(t, other);
            match last_at(s.drop_last(), other) {
                Some(i) => {
                    assert(s.drop_last()[i] == s[i]);
                },
                None => {},
            }
        }
    }
}

pub proof fn lemma_without_members<V>(s: Seq<(Seq<char>, V)>, key: Seq<char>)
    ensures
        without(s, key).len() <= s.len(),
        forall|j: int|
            0 <= j < without(s, key).len() ==> (#[trigger] without(s, key)[j]).0 != key && s.contains(
                without(s, key)[j],
            ),
    decreases s.len(),
{
    if s.len() > 0 {
        lemma_without_members(s.drop_last(), key);
        let w = without(s, key);
        let p = without(s.drop_last(), key);
        assert forall|j: int| 0 <= j < w.len() implies (#[trigger] w[j]).0 != key && s.contains(w[j]) by {
            if j < p.len() {
                assert(w[j] == p[j]);
                assert(s.drop_last().contains(p[j]));
                let q = choose|q: int| 0 <= q < s.drop_last().len() && s.drop_last()[q] == p[j];
                assert(s[q] == w[j]);
            } else {
                assert(w[j] == s.last());
                assert(s[s.len() - 1] == w[j]);
            }
        }
    }
}

/// Names stay distinct when a value is put under one.
pub proof fn law_put_keeps_names_distinct<V>(s: Seq<(Seq<char>, V)>, key: Seq<char>, v: V)
    requires
        names_distinct(s),
    ensures
        names_distinct(put(s, key, v)),
{
    lemma_last_at(s, key);
    let t = put(s, key, v);
    assert forall|i: int, j: int| 0 <= i < j < t.len() implies (#[trigger] t[i]).0 != (#[trigger] t[j]).0 by {
        if j < s.len() {
            assert(t[i].0 == s[i].0 && t[j].0 == s[j].0);
            assert(s[i].0 != s[j].0);
        } else {
            assert(t[i].0 == s[i].0);
        }
    }
}

/// Names stay distinct when one is removed.
pub proof fn law_without_keeps_names_distinct<V>(s: Seq<(Seq<char>, V)>, key: Seq<char>)
    requires
        names_distinct(s),
    ensures
        names_distinct(without(s, key)),
    decreases s.len(),
{
    if s.len() > 0 {
        let p = s.drop_last();
        assert(names_distinct(p)) by {
            assert forall|i: int, j: int| 0 <= i < j < p.len() implies (#[trigger] p[i]).0 != (#[trigger] p[j]).0 by {
                assert(p[i] == s[i] && p[j] == s[j]);
            }
        }
        law_without_keeps_names_distinct(p, key);
        lemma_without_members(p, key);
        let w = without(p, key);
        if s.last().0 != key {
            let t = w.push(s.last());
            assert forall|i: int, j: int| 0 <= i < j < t.len() implies (#[trigger] t[i]).0 != (#[trigger] t[j]).0 by {
                if j == w.len() {
                    assert(t[i] == w[i]);
                    assert(p.contains(w[i]));
                    let q = choose|q: int| 0 <= q < p.len() && p[q] == w[i];
                    assert(s[q].0 != s[s.len() - 1].0);
                }
            }
        }
    }
}


/// Finds the last entry with a name.
pub fn position<T>(v: &Vec<(String, T)>, key: &str) -> (r: Option<usize>)
    ensures
        match r {
            Some(i) => i < v@.len() && v@[i as int].0@ == key@ && forall|j: int|
                i < j < v@.len() ==> (#[trigger] v@[j]).0@ != key@,
            None => forall|j: int| 0 <= j < v@.len() ==> (#[trigger] v@[j]).0@ != key@,
        },
{
    let mut i: usize = v.len();
    while i > 0
        invariant
            i <= v@.len(),
            forall|j: int| i <= j < v@.len() ==> (#[trigger] v@[j]).0@ != key@,
        decreases i,
    {
        i -= 1;
        if same_text(v[i].0.as_str(), key) {
            return Some(i);
        }
    }
    None
}

/// A list of named values seen through `f`.
pub open spec fn viewed<T, V>(v: Seq<(String, T)>, f: spec_fn(T) -> V) -> Seq<(Seq<char>, V)> {
    Seq::new(v.len(), |i: int| (v[i].0@, f(v[i].1)))
}

/// Gives a name a value.
pub fn set_named<T, V>(v: &mut Vec<(String, T)>, key: String, value: T, Ghost(f): Ghost<spec_fn(T) -> V>)
    ensures
        viewed(final(v)@, f) == put(viewed(old(v)@, f), key@, f(value)),
{
    let ghost before = viewed(v@, f);
    let ghost named = key@;
    let ghost given = f(value);
    match position(v, key.as_str()) {
        Some(i) => {
            proof {
                assert forall|j: int| i < j < before.len() implies (#[trigger] before[j]).0 != named by {
                    assert(v@[j].0@ != named);
                }
                lemma_last_at_is(before, named, i as int);
            }
            v[i] = (key, value);
            assert(viewed(v@, f) =~= put(before, named, given));
        },
        None => {
            proof {
                lemma_last_at(before, named);
                if let Some(i) = last_at(before, named) {
                    assert(v@[i].0@ != named);
                }
            }
            v.push((key, value));
            assert(viewed(v@, f) =~= put(before, named, given));
        },
    }
}

/// Finds the value under a name.
pub fn value_named<'a, T, V>(v: &'a Vec<(String, T)>, key: &str, Ghost(f): Ghost<spec_fn(T) -> V>) -> (r: Option<&'a T>)
    ensures
        lookup(viewed(v@, f), key@) == match r {
            Some(t) => Some(f(*t)),
            None => None,
        },
{
    let ghost all = viewed(v@, f);
    match position(v, key) {
        Some(i) => {
            proof {
                assert forall|j: int| i < j < all.len() implies (#[trigger] all[j]).0 != key@ by {
                    assert(v@[j].0@ != key@);
                }
                lemma_last_at_is(all, key@, i as int);
            }
            Some(&v[i].1)
        },
        None => {
            proof {
                lemma_last_at(all, key@);
                if let Some(i) = last_at(all, key@) {
                    assert(v@[i].0@ != key@);
                }
            }
            None
        },
    }
}

proof fn lemma_without_nothing<V>(s: Seq<(Seq<char>, V)>, key: Seq<char>)
    requires
        forall|j: int| 0 <= j < s.len() ==> (#[trigger] s[j]).0 != key,
    ensures
        without(s, key) == s,
    decreases s.len(),
{
    if s.len() > 0 {
        assert(s[s.len() - 1].0 != key);
        assert forall|j: int| 0 <= j < s.drop_last().len() implies (#[trigger] s.drop_last()[j]).0 != key by {
            assert(s[j].0 != key);
        }
        lemma_without_nothing(s.drop_last(), key);
        assert(s.drop_last().push(s.last()) =~= s);
    }
}

proof fn lemma_without_remove<V>(s: Seq<(Seq<char>, V)>, key: Seq<char>, i: int)
    requires
        0 <= i < s.len(),
        s[i].0 == key,
    ensures
        without(s.remove(i), key) == without(s, key),
    decreases s.len(),
{
    if i < s.len() - 1 {
        lemma_without_remove(s.drop_last(), key, i);
        assert(s.remove(i).drop_last() =~= s.drop_last().remove(i));
        assert(s.remove(i).last() == s.last());
    } else {
        assert(s.remove(i) =~= s.drop_last());
    }
}

/// Takes out what has a name; says whether there was anything.
pub fn remove_named<T, V>(v: &mut Vec<(String, T)>, key: &str, Ghost(f): Ghost<spec_fn(T) -> V>) -> (r: bool)
    ensures
        viewed(final(v)@, f) == without(viewed(old(v)@, f), key@),
        r == (lookup(viewed(old(v)@, f), key@) is Some),
{
    let ghost before = viewed(v@, f);
    let mut found = false;
    let mut i: usize = v.len();
    proof {
        lemma_last_at(before, key@);
    }
    while i > 0
        invariant
            i <= v@.len(),
            before == viewed(old(v)@, f),
            without(viewed(v@, f), key@) == without(before, key@),
            forall|j: int| i <= j < v@.len() ==> (#[trigger] v@[j]).0@ != key@,
            found || v@ == old(v)@,
            found ==> exists|j: int| 0 <= j < before.len() && (#[trigger] before[j]).0 == key@,
        decreases i,
    {
        i -= 1;
        if same_text(v[i].0.as_str(), key) {
            proof {
                let now = viewed(v@, f);
                lemma_without_remove(now, key@, i as int);
                assert(viewed(v@.remove(i as int), f) =~= now.remove(i as int));
                if !found {
                    assert(before[i as int].0 == key@);
                }
            }
            v.remove(i);
            found = true;
        }
    }
    proof {
        assert forall|j: int| 0 <= j < viewed(v@, f).len() implies (#[trigger] viewed(v@, f)[j]).0 != key@ by {
            assert(v@[j].0@ != key@);
        }
        lemma_without_nothing(viewed(v@, f), key@);
        if !found {
            if let Some(p) = last_at(before, key@) {
                assert(v@[p].0@ != key@);
            }
        }
    }
    found
}

} // verus!
