//! What requests about collections, aliases and snapshots come to.

use vstd::prelude::*;
use crate::admin::{
    alias_actions, behind_prefixes, distance_named, last_part, located, metrics_text, new_config, total,
    AliasActionV, CreateCollectionRequest, SnapshotLocationV,
};
use crate::api::ApiErrorV;
use crate::collection::{CollectionV, Error};
use crate::config::{CollectionConfigV, Distance};
use crate::json::JsonV;
use crate::text::{contains_text, decimal_of, starts_with};
use crate::value_laws::{law_contained_in_longer, law_contained_text};

verus! {

// ---------------------------------------------------------------------------------------------
// Collections

/// A new collection is empty, and has a vector index or a text index exactly if it is asked for.
pub proof fn law_new_collection_is_empty(config: CollectionConfigV, key: Seq<char>)
    ensures
        CollectionV::empty(config).config == config,
        CollectionV::empty(config).points.len() == 0,
        CollectionV::empty(config).point(key) is None,
        (CollectionV::empty(config).index is Some) == config.use_hnsw,
        (CollectionV::empty(config).documents is Some) == config.enable_bm25,
        !CollectionV::empty(config).built,
        !CollectionV::empty(config).batch_mode,
        CollectionV::empty(config).operations == 0,
{
}

/// A request to create a collection is refused exactly if it configures neither dense nor sparse
/// vectors; sparse vectors bring the text index with them, and without dense vectors any length is
/// taken.
pub proof fn law_new_configuration(name: Seq<char>, req: CreateCollectionRequest)
    ensures
        (new_config(name, req) is None) == (req.vectors is None && !req.sparse_vectors),
        new_config(name, req) matches Some(c) ==> {
            &&& c.name == name
            &&& c.use_hnsw == req.use_hnsw
            &&& c.enable_bm25 == (req.enable_bm25 || req.sparse_vectors)
            &&& c.vector_dim == if req.vectors is Some {
                req.vectors->0.size
            } else {
                0
            }
        },
        new_config(name, req) matches Some(c) ==> req.vectors is None ==> c.distance == Distance::Cosine,
        new_config(name, req) matches Some(c) ==> req.vectors matches Some(v) ==> c.distance == distance_named(v@.distance),
{
}

/// A distance is named in two ways each; anything else, and no name, means the cosine.
pub proof fn law_distance_names(name: Option<Seq<char>>)
    ensures
        (distance_named(name) == Distance::Euclidean) == (name == Some("Euclidean"@) || name == Some("euclidean"@)),
        (distance_named(name) == Distance::Dot) == (name == Some("Dot"@) || name == Some("dot"@)),
{
    reveal_strlit("Euclidean");
    reveal_strlit("euclidean");
    reveal_strlit("Dot");
    reveal_strlit("dot");
    assert("Euclidean"@.len() == 9 && "euclidean"@.len() == 9 && "Dot"@.len() == 3 && "dot"@.len() == 3);
}

/// The points of all collections are counted together.
pub proof fn law_total_adds_all(counts: Seq<u64>, more: u64)
    ensures
        total(Seq::empty()) == 0,
        total(counts.push(more)) == total(counts) + more,
        total(counts) >= 0,
    decreases counts.len(),
{
    assert(counts.push(more).drop_last() =~= counts);
    if counts.len() > 0 {
        law_total_adds_all(counts.drop_last(), counts.last());
        assert(counts.drop_last().push(counts.last()) =~= counts);
    }
}

// ---------------------------------------------------------------------------------------------
// Aliases

/// What one request does to aliases: creating, deleting and renaming, each if it has the names
/// that are needed.
pub open spec fn actions_in(action: JsonV) -> Seq<AliasActionV> {
    let create = action.get_object("create_alias"@);
    let delete = action.get_object("delete_alias"@);
    let rename = action.get_object("rename_alias"@);
    (if create is Some && create->0.get_text("alias_name"@) is Some && create->0.get_text("collection_name"@) is Some {
        seq![
            AliasActionV::Create {
                alias: create->0.get_text("alias_name"@)->0,
                collection: create->0.get_text("collection_name"@)->0,
            },
        ]
    } else {
        Seq::empty()
    }) + (if delete is Some && delete->0.get_text("alias_name"@) is Some {
        seq![AliasActionV::Delete { alias: delete->0.get_text("alias_name"@)->0 }]
    } else {
        Seq::empty()
    }) + (if rename is Some && rename->0.get_text("old_alias_name"@) is Some && rename->0.get_text(
        "new_alias_name"@,
    ) is Some {
        seq![
            AliasActionV::Rename {
                from: rename->0.get_text("old_alias_name"@)->0,
                to: rename->0.get_text("new_alias_name"@)->0,
            },
        ]
    } else {
        Seq::empty()
    })
}

/// Every request for aliases counts, in order.
pub proof fn law_all_alias_actions_read(actions: Seq<JsonV>)
    ensures
        alias_actions(actions) == actions.map_values(|a: JsonV| actions_in(a)).flatten_alt(),
    decreases actions.len(),
{
    let f = |a: JsonV| actions_in(a);
    if actions.len() > 0 {
        let rest = actions.drop_last();
        law_all_alias_actions_read(rest);
        assert(actions.map_values(f).drop_last() =~= rest.map_values(f));
        let before = alias_actions(rest);
        let last = actions.last();
        assert(actions.map_values(f).last() == actions_in(last));
        assert(alias_actions(actions) =~= before + actions_in(last));
    } else {
        assert(alias_actions(actions) =~= actions.map_values(f).flatten_alt());
    }
}

// ---------------------------------------------------------------------------------------------
// Snapshots

/// What stands behind the last separator holds none, and all of it stands at the end of the text.
pub proof fn law_last_part(s: Seq<char>, separator: char)
    ensures
        last_part(s, separator).len() <= s.len(),
        last_part(s, separator) == s.skip(s.len() - last_part(s, separator).len()),
        forall|i: int| 0 <= i < last_part(s, separator).len() ==> #[trigger] last_part(s, separator)[i] != separator,
        last_part(s, separator).len() < s.len() ==> s[s.len() - last_part(s, separator).len() - 1] == separator,
    decreases s.len(),
{
    if s.len() > 0 && s.last() != separator {
        let rest = s.drop_last();
        law_last_part(rest, separator);
        let part = last_part(rest, separator);
        assert(last_part(s, separator) == part.push(s.last()));
        assert(part.push(s.last()) =~= s.skip(s.len() - part.len() - 1));
        assert forall|i: int| 0 <= i < last_part(s, separator).len() implies #[trigger] last_part(s, separator)[i]
            != separator by {
            if i < part.len() {
                assert(last_part(s, separator)[i] == part[i]);
            }
        }
    } else {
        assert(last_part(s, separator) =~= s.skip(s.len() as int));
    }
}

/// A prefix is taken off as often as it stands at the front.
pub proof fn law_prefixes_taken_off(s: Seq<char>, prefix: Seq<char>)
    requires
        prefix.len() > 0,
    ensures
        !starts_with(behind_prefixes(s, prefix), prefix),
        behind_prefixes(prefix + s, prefix) == behind_prefixes(s, prefix),
        !starts_with(s, prefix) ==> behind_prefixes(s, prefix) == s,
    decreases s.len(),
{
    if starts_with(s, prefix) {
        law_prefixes_taken_off(s.skip(prefix.len() as int), prefix);
    }
    assert((prefix + s).subrange(0, prefix.len() as int) =~= prefix);
    assert((prefix + s).skip(prefix.len() as int) =~= s);
    assert(starts_with(prefix + s, prefix));
}

/// A snapshot is at an address if that is one of the web; a file is meant by its name, and
/// anything else is a name.
pub proof fn law_snapshot_located(location: Seq<char>)
    ensures
        starts_with(location, "http://"@) || starts_with(location, "https://"@) ==> located(location)
            == SnapshotLocationV::Url(location),
        !starts_with(location, "http://"@) && !starts_with(location, "https://"@) ==> match located(location) {
            SnapshotLocationV::Url(_) => false,
            SnapshotLocationV::Name(name) => if starts_with(location, "file://"@) {
                name == last_part(behind_prefixes(location, "file://"@), '/')
            } else {
                name == location
            },
        },
{
}

// ---------------------------------------------------------------------------------------------
// What is told

/// The metrics tell the version, how many collections there are and how many points.
pub proof fn law_metrics_tell(version: Seq<char>, collections: nat, points: nat)
    ensures
        contains_text(metrics_text(version, collections, points), version),
        contains_text(metrics_text(version, collections, points), decimal_of(collections)),
        contains_text(metrics_text(version, collections, points), decimal_of(points)),
{
    let a =
        "# HELP app_info information about vectx server\n# TYPE app_info gauge\napp_info{name=\"vectx\",version=\""@;
    let b =
        "\"} 1\n# HELP cluster_enabled is cluster support enabled\n# TYPE cluster_enabled gauge\ncluster_enabled 0\n# HELP collections_total number of collections\n# TYPE collections_total gauge\ncollections_total "@;
    let c =
        "\n# HELP points_total total number of points across all collections\n# TYPE points_total gauge\npoints_total "@;
    let end = "\n"@;
    let x = decimal_of(collections);
    let y = decimal_of(points);
    let told = metrics_text(version, collections, points);
    assert(told == a + version + b + x + c + y + end);
    law_contained_in_longer(a, Seq::empty(), version);
    law_contained_in_longer(a + version, b, version);
    law_contained_in_longer(a + version + b, x, version);
    law_contained_in_longer(a + version + b + x, c, version);
    law_contained_in_longer(a + version + b + x + c, y, version);
    law_contained_in_longer(a + version + b + x + c + y, end, version);
    law_contained_in_longer(a + version + b, Seq::empty(), x);
    law_contained_in_longer(a + version + b + x, c, x);
    law_contained_in_longer(a + version + b + x + c, y, x);
    law_contained_in_longer(a + version + b + x + c + y, end, x);
    law_contained_in_longer(a + version + b + x + c, Seq::empty(), y);
    law_contained_in_longer(a + version + b + x + c + y, end, y);
}

/// A refusal tells the key that was not found, and both lengths of a vector that does not fit.
pub proof fn law_refusals_tell(key: Seq<char>, expected: usize, actual: usize)
    ensures
        contains_text(ApiErrorV::PointNotFound(key).message(), key),
        contains_text(
            ApiErrorV::Core(Error::InvalidDimension { expected, actual }).message(),
            decimal_of(expected as nat),
        ),
        contains_text(
            ApiErrorV::Core(Error::InvalidDimension { expected, actual }).message(),
            decimal_of(actual as nat),
        ),
{
    let told = ApiErrorV::PointNotFound(key).message();
    law_contained_text(told, key, "Point with ID '"@, "' not found"@);
    let misfit = ApiErrorV::Core(Error::InvalidDimension { expected, actual }).message();
    let a = "Invalid vector dimension: expected "@;
    let b = ", got "@;
    let x = decimal_of(expected as nat);
    let y = decimal_of(actual as nat);
    law_contained_text(misfit, x, a, b + y);
    assert(misfit =~= a + x + (b + y));
    law_contained_text(misfit, y, a + x + b, Seq::empty());
    assert(misfit =~= (a + x + b) + y + Seq::empty());
}

} // verus!
