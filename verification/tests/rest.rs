use vectx::admin::{
    build_recovery_result, choose_vectors, create_collection, get_collection, metrics_endpoint, snapshot_location,
    update_aliases, AliasAction, CreateCollectionRequest, RestApi, SnapshotLocation, Upload, VectorConfig,
    GRPC_INDEXING_THRESHOLD, REST_INDEXING_THRESHOLD,
};
use vectx::api::{ApiError, Hit};
use vectx::collection::{Collection, Error};
use vectx::config::{CollectionConfig, Distance, PayloadIndexType};
use vectx::filter::{parse_field_condition, parse_filter, read_filter, Filter, PayloadFilter};
use vectx::fusion::{query_points, PrefetchQuery, QueryRequest};
use vectx::ieee::{Double, Real};
use vectx::input::{parse_point_from_json, parse_vector_optional, PointRequest};
use vectx::json::{Json, Number, NumberForm};
use vectx::kernels::Kernels;
use vectx::matching::{get_nested_value, matches_filter, values_equal};
use vectx::point::{MultiVectorError, Point, PointId, Vector};
use vectx::recommend::{recommend_points, RecommendRequest};
use vectx::rest_explore::{discover_points, query_groups, search_groups, GroupsRequest};
use vectx::rest_read::{count_points, facet_counts, get_point, get_points_by_ids, scroll_points, ScrollRequest};
use vectx::rest_search::{search_points, SearchRequest};
use vectx::rest_write::{
    batch_update, clear_payload, create_field_index, delete_field_index, delete_payload, delete_point,
    delete_points_by_filter, delete_vectors, overwrite_payload, process_batch_operation, set_payload, update_vectors,
    upsert_points, DeletePointsRequest, FilterMust, UpdateVectorPoint,
};
use vectx::scoring::brute_force_search;

/// Arithmetic in single precision, one operation after the other.
struct Plain;

fn single(x: f32) -> Real {
    Real { bits: x.to_bits() }
}

fn singles(v: &[f32]) -> Vec<Real> {
    v.iter().map(|x| single(*x)).collect()
}

fn float(r: Real) -> f32 {
    f32::from_bits(r.bits)
}

fn floats(v: &[Real]) -> Vec<f32> {
    v.iter().map(|r| float(*r)).collect()
}

fn dot_of(a: &[f32], b: &[f32]) -> f32 {
    a.iter().zip(b.iter()).map(|(x, y)| x * y).sum()
}

fn length_of(a: &[f32]) -> f32 {
    dot_of(a, a).sqrt()
}

impl Kernels for Plain {
    fn dot(&self, a: &[Real], b: &[Real]) -> Real {
        single(dot_of(&floats(a), &floats(b)))
    }

    fn l2_distance(&self, a: &[Real], b: &[Real]) -> Real {
        let d: Vec<f32> = floats(a).iter().zip(floats(b).iter()).map(|(x, y)| x - y).collect();
        single(length_of(&d))
    }

    fn cosine_similarity(&self, a: &[Real], b: &[Real]) -> Real {
        let (a, b) = (floats(a), floats(b));
        let lengths = length_of(&a) * length_of(&b);
        single(if lengths == 0.0 { 0.0 } else { dot_of(&a, &b) / lengths })
    }

    fn normalized(&self, a: &[Real]) -> Vec<Real> {
        let a = floats(a);
        let n = length_of(&a);
        a.iter().map(|x| single(if n == 0.0 { *x } else { x / n })).collect()
    }

    fn plus(&self, x: Real, y: Real) -> Real {
        single(float(x) + float(y))
    }

    fn minus(&self, x: Real, y: Real) -> Real {
        single(float(x) - float(y))
    }

    fn times(&self, x: Real, y: Real) -> Real {
        single(float(x) * float(y))
    }

    fn quotient(&self, x: Real, y: Real) -> Real {
        single(float(x) / float(y))
    }

    fn count(&self, n: usize) -> Real {
        single(n as f32)
    }

    fn text_search(&self, documents: &Vec<(String, String)>, query: &str, limit: usize) -> Vec<(String, Real)> {
        let mut found: Vec<(String, Real)> = Vec::new();
        for (name, text) in documents {
            let hits = text.split_whitespace().filter(|w| query.split_whitespace().any(|q| q == *w)).count();
            if hits > 0 {
                found.push((name.clone(), single(hits as f32)));
            }
        }
        found.sort_by(|a, b| float(b.1).partial_cmp(&float(a.1)).unwrap());
        found.truncate(limit);
        found
    }

    fn double_of(&self, n: i64) -> Double {
        Double { bits: (n as f64).to_bits() }
    }

    fn narrowed(&self, d: Double) -> Real {
        single(f64::from_bits(d.bits) as f32)
    }

    fn double_text(&self, d: Double) -> String {
        format!("{:?}", f64::from_bits(d.bits))
    }
}

/// A JSON text as a value of the library.
fn json(text: &str) -> Json {
    from_serde(&serde_json::from_str::<serde_json::Value>(text).unwrap())
}

fn from_serde(v: &serde_json::Value) -> Json {
    match v {
        serde_json::Value::Null => Json::Null,
        serde_json::Value::Bool(b) => Json::Bool(*b),
        serde_json::Value::Number(n) => {
            let double = n.as_f64().unwrap();
            let form = if let Some(u) = n.as_u64() {
                NumberForm::Natural(u)
            } else if let Some(i) = n.as_i64() {
                NumberForm::Negative(i)
            } else {
                NumberForm::Decimal(n.to_string())
            };
            Json::Number(Number { form, double: Double { bits: double.to_bits() }, single: single(double as f32) })
        }
        serde_json::Value::String(s) => Json::Text(s.clone()),
        serde_json::Value::Array(a) => Json::Array(a.iter().map(from_serde).collect()),
        serde_json::Value::Object(o) => Json::Object(o.iter().map(|(k, v)| (k.clone(), from_serde(v))).collect()),
    }
}

fn config(name: &str, vector_dim: usize, use_hnsw: bool, enable_bm25: bool) -> CollectionConfig {
    CollectionConfig { name: name.to_string(), vector_dim, distance: Distance::Cosine, use_hnsw, enable_bm25 }
}

fn point(id: u64, vector: &[f32], payload: Option<Json>) -> Point {
    Point::new(PointId::Integer(id), Vector::new(singles(vector)), payload)
}

fn request(id: &str, vector: &str, payload: &str) -> PointRequest {
    PointRequest {
        id: json(id),
        vector: parse_vector_optional(&Some(json(vector))).ok().unwrap(),
        payload: Some(json(payload)),
    }
}

/// Four points in the plane: 1 and 2 to the right, 3 up, "four" to the left.
fn plane() -> Collection {
    let mut c = Collection::new(config("plane", 2, true, true));
    let reqs = vec![
        request("1", "[1.0, 0.0]", "{\"city\": \"Rome\", \"n\": 1, \"text\": \"red tea\"}"),
        request("2", "[0.8, 0.6]", "{\"city\": \"Rome\", \"n\": 2, \"text\": \"green tea\"}"),
        request("3", "[0.0, 1.0]", "{\"city\": \"Oslo\", \"n\": 3}"),
        request("\"four\"", "[-1.0, 0.0]", "{\"city\": 5}"),
    ];
    for r in reqs {
        upsert_points(&mut c, &Plain, &vec![r]).ok().unwrap();
    }
    c
}

fn keys(hits: &[Hit]) -> Vec<String> {
    hits.iter().map(|h| h.record.id.key()).collect()
}

fn near(vector: &[f32], limit: usize) -> SearchRequest {
    SearchRequest {
        vector: Some(singles(vector)),
        text: None,
        limit: Some(limit),
        filter: None,
        with_payload: None,
        with_vector: None,
        score_threshold: None,
        offset: None,
    }
}

fn query(q: &str) -> QueryRequest {
    QueryRequest {
        query: json(q),
        limit: None,
        with_payload: None,
        with_vector: None,
        filter: None,
        prefetch: None,
        using: None,
    }
}

fn prefetch(q: &str, using: Option<&str>) -> PrefetchQuery {
    PrefetchQuery { query: json(q), using: using.map(|s| s.to_string()), limit: None, filter: None }
}

#[test]
fn stored_points_are_read_back() {
    let mut c = Collection::new(config("c", 2, false, false));
    let reqs = vec![
        request("1", "[1.0, 0.5]", "{\"a\": 1}"),
        request("\"x\"", "[[1.0, 2.0], [3.0, 4.0]]", "null"),
        request("1", "[0.25, 0.5]", "{\"a\": 2}"),
    ];
    let ack = upsert_points(&mut c, &Plain, &reqs).ok().unwrap();
    assert_eq!(ack.operation_id, 0);
    assert!(ack.rebuild.is_none());
    assert_eq!(count_points(&c), 2);
    let one = get_point(&c, "1").unwrap();
    assert_eq!(one.version, 1);
    assert_eq!(floats(&one.vector.unwrap()), vec![0.25, 0.5]);
    assert!(one.payload.unwrap().same(&json("{\"a\": 2}")));
    let x = get_point(&c, "x").unwrap();
    assert_eq!(floats(x.vector.as_ref().unwrap()), vec![1.0, 2.0]);
    assert_eq!(x.multivector.unwrap().len(), 2);
    assert!(get_point(&c, "y").is_none());
    assert_eq!(upsert_points(&mut c, &Plain, &vec![]).ok().unwrap().operation_id, 1);
}

#[test]
fn refused_points() {
    let mut c = Collection::new(config("c", 2, false, false));
    for id in ["-1", "1.5", "true", "null", "[1]"] {
        let r = upsert_points(&mut c, &Plain, &vec![request("1", "[1.0, 1.0]", "{}"), request(id, "[1.0, 1.0]", "{}")]);
        assert!(matches!(r, Err(ApiError::InvalidPointId)));
    }
    assert_eq!(c.count(), 0);
    let r = upsert_points(&mut c, &Plain, &vec![request("1", "[1.0]", "{}")]);
    assert!(matches!(r, Err(ApiError::Core(Error::InvalidDimension { expected: 2, actual: 1 }))));
    // a refused request is given no number
    assert_eq!(upsert_points(&mut c, &Plain, &vec![request("1", "[1.0, 1.0]", "{}")]).ok().unwrap().operation_id, 0);
}

#[test]
fn vectors_in_requests() {
    assert!(parse_vector_optional(&None).ok().unwrap().is_none());
    assert!(parse_vector_optional(&Some(json("null"))).ok().unwrap().is_none());
    assert!(parse_vector_optional(&Some(json("[]"))).ok().unwrap().is_none());
    let v = parse_vector_optional(&Some(json("[1, 2.5]"))).ok().unwrap().unwrap();
    assert_eq!(floats(&v.primary), vec![1.0, 2.5]);
    assert!(v.multivector.is_none() && v.sparse_vectors.is_empty());
    let m = parse_vector_optional(&Some(json("[[1], [2]]"))).ok().unwrap().unwrap();
    assert_eq!(floats(&m.primary), vec![1.0]);
    assert_eq!(m.multivector.unwrap().len(), 2);
    let named = "{\"dense\": [3, 4], \"kw\": {\"indices\": [7, -1, 4294967297], \"values\": [0.5, \"x\", 1]}, \"z\": {\"indices\": [], \"values\": [1]}}";
    let n = parse_vector_optional(&Some(json(named))).ok().unwrap().unwrap();
    assert_eq!(floats(&n.primary), vec![3.0, 4.0]);
    assert_eq!(n.sparse_vectors.len(), 1);
    assert_eq!(n.sparse_vectors[0].name, "kw");
    assert_eq!(n.sparse_vectors[0].indices, vec![7, 1]);
    assert_eq!(floats(&n.sparse_vectors[0].values), vec![0.5, 1.0]);
    let empty = parse_vector_optional(&Some(json("{}"))).ok().unwrap().unwrap();
    assert_eq!(floats(&empty.primary), vec![0.0]);
    assert!(matches!(parse_vector_optional(&Some(json("[1, \"x\"]"))), Err(ApiError::ExpectedNumber)));
    assert!(matches!(parse_vector_optional(&Some(json("[[1], 2]"))), Err(ApiError::ExpectedArrays)));
    assert!(matches!(parse_vector_optional(&Some(json("[\"x\"]"))), Err(ApiError::InvalidVectorFormat)));
    assert!(matches!(parse_vector_optional(&Some(json("5"))), Err(ApiError::InvalidVectorKind)));
}

#[test]
fn refusals_in_words() {
    assert_eq!(ApiError::InvalidPointId.message(), "Invalid point ID");
    assert_eq!(ApiError::PointNotFound("7".to_string()).message(), "Point with ID '7' not found");
    assert_eq!(
        ApiError::Core(Error::InvalidDimension { expected: 3, actual: 12 }).message(),
        "Invalid vector dimension: expected 3, got 12"
    );
    assert_eq!(ApiError::VectorOrTextRequired.message(), "Either 'vector' or 'text' must be provided");
    assert_eq!(ApiError::InvalidMultivectorRow.message(), "Invalid multivector: expected array");
    assert_eq!(
        ApiError::InvalidMultivector(MultiVectorError::RowLength { row: 2 }).message(),
        "Invalid multivector: vectors of different lengths, first at 2"
    );
    assert_eq!(ApiError::PositiveRequired.message(), "At least one valid positive example is required");
}

#[test]
fn searching_by_vector() {
    let mut c = plane();
    let hits = search_points(&mut c, &Plain, &near(&[2.0, 0.0], 3)).ok().unwrap();
    assert_eq!(keys(&hits), vec!["1", "2", "3"]);
    assert_eq!(float(hits[0].score), 1.0);
    assert_eq!(float(hits[1].score), 0.8);
    assert!(hits[0].record.payload.is_some() && hits[0].record.vector.is_none());
    let mut req = near(&[2.0, 0.0], 2);
    req.offset = Some(1);
    req.with_vector = Some(true);
    req.with_payload = Some(false);
    let hits = search_points(&mut c, &Plain, &req).ok().unwrap();
    assert_eq!(keys(&hits), vec!["2", "3"]);
    assert!(hits[0].record.payload.is_none() && hits[0].record.vector.is_some());
    let mut req = near(&[2.0, 0.0], 10);
    req.score_threshold = Some(single(0.8));
    assert_eq!(keys(&search_points(&mut c, &Plain, &req).ok().unwrap()), vec!["1", "2"]);
    let mut req = near(&[2.0, 0.0], 10);
    req.filter = Some(json("{\"must\": [{\"key\": \"city\", \"match\": {\"value\": \"Oslo\"}}]}"));
    assert_eq!(keys(&search_points(&mut c, &Plain, &req).ok().unwrap()), vec!["3"]);
    req.offset = Some(5);
    assert!(search_points(&mut c, &Plain, &req).ok().unwrap().is_empty());
}

#[test]
fn searching_by_text() {
    let mut c = plane();
    let mut req = near(&[1.0, 0.0], 10);
    req.text = Some("green tea".to_string());
    let hits = search_points(&mut c, &Plain, &req).ok().unwrap();
    assert_eq!(keys(&hits), vec!["2", "1"]);
    req.offset = Some(1);
    assert_eq!(keys(&search_points(&mut c, &Plain, &req).ok().unwrap()), vec!["1"]);
    req.offset = None;
    req.score_threshold = Some(single(1.5));
    assert_eq!(keys(&search_points(&mut c, &Plain, &req).ok().unwrap()), vec!["2"]);
    req.text = None;
    req.vector = None;
    assert!(matches!(search_points(&mut c, &Plain, &req), Err(ApiError::VectorOrTextRequired)));
}

#[test]
fn many_points_are_scored_on_several_threads() {
    let points: Vec<Point> = (0..12_000u64).map(|i| point(i, &[(i % 97) as f32, i as f32], None)).collect();
    let found = brute_force_search(&Plain, Distance::Dot, &points, &singles(&[0.0, 1.0]), 3, None::<&PayloadFilter>);
    let got: Vec<(String, f32)> = found.iter().map(|(p, s)| (p.id.key(), float(*s))).collect();
    assert_eq!(
        got,
        vec![("11999".to_string(), 11999.0), ("11998".to_string(), 11998.0), ("11997".to_string(), 11997.0)]
    );
}

#[test]
fn filters_are_read() {
    let payload = json("{\"a\": 1, \"b\": \"x\", \"c\": 2.5}");
    let cases = [
        ("{\"must\": [{\"key\": \"a\", \"match\": {\"value\": 1}}]}", true),
        ("{\"must\": [{\"key\": \"a\", \"match\": {\"value\": 2}}]}", false),
        ("{\"must_not\": [{\"key\": \"a\", \"match\": {\"value\": 2}}]}", true),
        ("{\"should\": [{\"key\": \"a\", \"match\": {\"value\": 2}}, {\"key\": \"b\", \"match\": {\"text\": \"x\"}}]}", true),
        ("{\"must\": [{\"key\": \"c\", \"range\": {\"gt\": 2, \"lt\": 1}}]}", false),
        ("{\"must\": [{\"key\": \"c\", \"range\": {\"gt\": 2, \"lt\": 3}}]}", true),
        ("{\"must\": [{\"key\": \"c\", \"range\": {\"gte\": 2.5, \"lte\": 2.5}}]}", true),
        ("{\"must\": [{\"key\": \"c\", \"range\": {\"gte\": 1, \"lt\": 2.5}}]}", false),
        ("{\"must\": [{\"key\": \"b\", \"range\": {\"gt\": 0, \"lt\": 9}}]}", false),
        ("{\"must\": [{\"key\": \"c\", \"range\": {\"lte\": 2}}]}", false),
        ("{\"field\": \"c\", \"operator\": \"gte\", \"value\": 2.5}", true),
        ("{\"field\": \"c\", \"operator\": \"lt\", \"value\": 2.5}", false),
        ("{\"field\": \"b\", \"operator\": \"ne\", \"value\": \"y\"}", true),
        ("{\"key\": \"b\", \"match\": {\"any\": [\"x\", \"y\"]}}", true),
        ("{\"key\": \"b\", \"match\": {\"any\": [\"y\", \"x\"]}}", true),
        ("{\"key\": \"b\", \"match\": {\"any\": [\"y\", \"z\"]}}", false),
        ("{\"key\": \"b\", \"match\": {\"any\": [\"x\"]}}", true),
        ("{\"key\": \"b\", \"match\": {\"any\": [], \"text\": \"x\"}}", true),
        ("{\"must_not\": [{\"key\": \"b\", \"match\": {\"any\": [\"y\", \"x\"]}}]}", false),
    ];
    for (filter, expected) in cases {
        let condition = parse_filter(&json(filter)).unwrap();
        assert_eq!(condition.holds(&payload), expected, "{}", filter);
    }
    for nothing in ["{}", "5", "{\"must\": []}", "{\"field\": \"a\", \"operator\": \"what\", \"value\": 1}"] {
        assert!(parse_filter(&json(nothing)).is_none(), "{}", nothing);
    }
    assert!(read_filter(&None).is_none());
}

#[test]
fn filters_in_json_match_points() {
    let p = point(
        7,
        &[1.0],
        Some(json(
            "{\"name\": \"Green Tea\", \"n\": 3, \"tags\": [\"a\", \"b\"], \"deep\": {\"er\": true}, \"diet\": [{\"food\": \"leaves\", \"likes\": false}, {\"food\": \"meat\", \"likes\": true}]}",
        )),
    );
    let cases = [
        ("{}", true),
        ("7", true),
        ("{\"must\": [{\"has_id\": [1, \"7\"]}]}", true),
        ("{\"must\": [{\"has_id\": [7]}]}", true),
        ("{\"must\": [{\"has_id\": [8]}]}", false),
        ("{\"must\": [{\"key\": \"name\", \"match\": {\"text\": \"black TEA\"}}]}", true),
        ("{\"must\": [{\"key\": \"name\", \"match\": {\"text\": \"coffee\"}}]}", false),
        ("{\"must\": [{\"key\": \"n\", \"match\": {\"any\": [1, 3.0]}}]}", true),
        ("{\"must\": [{\"key\": \"tags\", \"match\": {\"value\": \"b\"}}]}", true),
        ("{\"must\": [{\"key\": \"deep.er\", \"match\": {\"value\": true}}]}", true),
        ("{\"must\": [{\"key\": \"diet[].food\", \"match\": {\"value\": \"meat\"}}]}", true),
        ("{\"must\": [{\"key\": \"diet[].drink\", \"match\": {\"value\": \"meat\"}}]}", false),
        ("{\"must\": [{\"key\": \"n\", \"range\": {\"gt\": 2, \"lte\": 3}}]}", true),
        ("{\"must\": [{\"key\": \"n\", \"range\": {\"gt\": 3}}]}", false),
        ("{\"must\": [{\"key\": \"name\", \"range\": {\"gt\": 3}}]}", false),
        ("{\"should\": []}", true),
        ("{\"should\": [{\"key\": \"n\", \"match\": {\"value\": 4}}]}", false),
        ("{\"must_not\": [{\"key\": \"n\", \"match\": {\"value\": 4}}]}", true),
        ("{\"must\": [{\"must_not\": [{\"key\": \"n\", \"match\": {\"value\": 3}}]}]}", false),
        ("{\"must\": [5]}", false),
        ("{\"must\": [{\"nested\": {\"key\": \"diet\", \"filter\": {\"must\": [{\"key\": \"food\", \"match\": {\"value\": \"meat\"}}, {\"key\": \"likes\", \"match\": {\"value\": true}}]}}}]}", true),
        ("{\"must\": [{\"nested\": {\"key\": \"diet\", \"filter\": {\"must\": [{\"key\": \"food\", \"match\": {\"value\": \"leaves\"}}, {\"key\": \"likes\", \"match\": {\"value\": true}}]}}}]}", false),
        ("{\"must\": [{\"nested\": {\"key\": \"diet\", \"filter\": {\"must_not\": [{\"key\": \"food\", \"match\": {\"value\": \"meat\"}}]}}}]}", true),
        ("{\"must\": [{\"nested\": {\"key\": \"diet\"}}]}", false),
    ];
    for (filter, expected) in cases {
        assert_eq!(matches_filter(&p, &json(filter)), expected, "{}", filter);
    }
}

#[test]
fn values_at_paths() {
    let payload = Some(json("{\"a\": {\"b\": [1]}, \"l\": [{\"x\": 1}, {\"y\": 2}, {\"x\": 3}], \"p.q\": 4}"));
    assert!(get_nested_value(&payload, "a.b").unwrap().same(&json("[1]")));
    assert!(get_nested_value(&payload, "l[].x").unwrap().same(&json("[1, 3]")));
    assert!(get_nested_value(&payload, "l[]").unwrap().same(&json("[{\"x\": 1}, {\"y\": 2}, {\"x\": 3}]")));
    assert!(get_nested_value(&payload, "l[].z").is_none());
    assert!(get_nested_value(&payload, "a.c").is_none());
    assert!(get_nested_value(&payload, "p.q").is_none());
    assert!(get_nested_value(&None, "a").is_none());
    assert!(values_equal(&json("1"), &json("1.0")));
    assert!(values_equal(&json("[1, 2]"), &json("2")));
    assert!(values_equal(&json("2"), &json("[1, 2]")));
    assert!(!values_equal(&json("\"1\""), &json("1")));
    assert!(values_equal(&json("null"), &json("null")));
}

#[test]
fn queries() {
    let mut c = plane();
    let hits = query_points(&mut c, &Plain, &query("[1, 0]")).ok().unwrap();
    assert_eq!(keys(&hits), vec!["1", "2", "3", "four"]);
    // the neighbours of a stored point, without the point itself
    let hits = query_points(&mut c, &Plain, &query("3")).ok().unwrap();
    assert_eq!(keys(&hits), vec!["2", "1", "four"]);
    let mut one = query("\"four\"");
    one.limit = Some(1);
    assert_eq!(keys(&query_points(&mut c, &Plain, &one).ok().unwrap()), vec!["3"]);
    assert!(matches!(query_points(&mut c, &Plain, &query("99")), Err(ApiError::PointNotFound(_))));
    assert!(matches!(query_points(&mut c, &Plain, &query("1.5")), Err(ApiError::InvalidPointIdFormat)));
    assert!(matches!(query_points(&mut c, &Plain, &query("[1, \"x\"]")), Err(ApiError::InvalidVector)));
    assert!(matches!(query_points(&mut c, &Plain, &query("[[1], \"x\"]")), Err(ApiError::InvalidMultivectorRow)));
    assert!(matches!(query_points(&mut c, &Plain, &query("[[\"x\"]]")), Err(ApiError::InvalidMultivectorNumber)));
    assert!(matches!(
        query_points(&mut c, &Plain, &query("[[1], [1, 2]]")),
        Err(ApiError::InvalidMultivector(MultiVectorError::RowLength { row: 1 }))
    ));
    assert!(matches!(query_points(&mut c, &Plain, &query("[]")), Err(ApiError::InvalidQueryFormat)));
    assert!(matches!(query_points(&mut c, &Plain, &query("true")), Err(ApiError::InvalidQueryFormat)));
    assert!(matches!(
        query_points(&mut c, &Plain, &query("{\"indices\": 1, \"values\": []}")),
        Err(ApiError::MissingIndices)
    ));
    assert!(matches!(
        query_points(&mut c, &Plain, &query("{\"indices\": [], \"values\": 1}")),
        Err(ApiError::MissingValues)
    ));
    let many = query_points(&mut c, &Plain, &query("[[1, 0], [0, 1]]")).ok().unwrap();
    assert_eq!(many[0].record.id.key(), "2");
}

#[test]
fn sparse_queries() {
    let mut c = Collection::new(config("c", 0, false, false));
    upsert_points(
        &mut c,
        &Plain,
        &vec![
            request("1", "{\"kw\": {\"indices\": [1, 2], \"values\": [1, 1]}}", "{}"),
            request("2", "{\"kw\": {\"indices\": [2], \"values\": [3]}}", "{}"),
            request("3", "{\"default\": {\"indices\": [2], \"values\": [5]}}", "{}"),
        ],
    )
    .ok()
    .unwrap();
    let mut q = query("{\"indices\": [2], \"values\": [2]}");
    q.using = Some("kw".to_string());
    let hits = query_points(&mut c, &Plain, &q).ok().unwrap();
    assert_eq!(keys(&hits), vec!["2", "1"]);
    assert_eq!(float(hits[0].score), 6.0);
    q.using = None;
    assert_eq!(keys(&query_points(&mut c, &Plain, &q).ok().unwrap()), vec!["3"]);
    let nothing = query("{\"indices\": [\"x\"], \"values\": [2]}");
    assert!(query_points(&mut c, &Plain, &nothing).ok().unwrap().is_empty());
}

#[test]
fn fusion_adds_up_ranks() {
    let mut c = plane();
    let mut q = query("{\"fusion\": \"rrf\"}");
    q.prefetch = Some(vec![prefetch("[1, 0]", None), prefetch("[0, 1]", None)]);
    q.limit = Some(3);
    let hits = query_points(&mut c, &Plain, &q).ok().unwrap();
    // ranks by the first list: 1 2 3 four; by the second: 3 2 1 four
    let got: Vec<(String, f32)> = hits.iter().map(|h| (h.record.id.key(), float(h.score))).collect();
    let ends = 1.0f32 / 2.0 + 1.0 / 4.0;
    let middle = 1.0f32 / 3.0 + 1.0 / 3.0;
    assert_eq!(got, vec![("1".to_string(), ends), ("3".to_string(), ends), ("2".to_string(), middle)]);
    q.prefetch = Some(vec![prefetch("[1, 0]", None), prefetch("true", None)]);
    assert!(matches!(query_points(&mut c, &Plain, &q), Err(ApiError::InvalidQueryFormat)));
    q.prefetch = Some(vec![]);
    assert!(query_points(&mut c, &Plain, &q).ok().unwrap().is_empty());
    q.prefetch = None;
    assert!(matches!(query_points(&mut c, &Plain, &q), Err(ApiError::InvalidQueryFormat)));
    assert!(matches!(
        vectx::fusion::execute_fusion_query(&mut c, &Plain, &None, 10),
        Err(ApiError::PrefetchRequired)
    ));
}

#[test]
fn discovering() {
    let mut c = plane();
    let hits = discover_points(&mut c, &Plain, &Some(json("[0, 1]")), Some(2), None).ok().unwrap();
    assert_eq!(keys(&hits), vec!["3", "2"]);
    assert!(hits[0].record.vector.is_none());
    let hits = discover_points(&mut c, &Plain, &Some(json("\"four\"")), Some(1), Some(false)).ok().unwrap();
    assert_eq!(keys(&hits), vec!["four"]);
    assert!(hits[0].record.payload.is_none());
    assert_eq!(keys(&discover_points(&mut c, &Plain, &Some(json("3")), Some(1), None).ok().unwrap()), vec!["3"]);
    for target in [None, Some(json("99")), Some(json("[\"x\"]")), Some(json("true"))] {
        assert!(matches!(discover_points(&mut c, &Plain, &target, None, None), Err(ApiError::TargetRequired)));
    }
}

fn groups(limit: usize, size: usize) -> GroupsRequest {
    GroupsRequest {
        group_by: "city".to_string(),
        limit: Some(limit),
        group_size: Some(size),
        with_payload: None,
        with_vector: None,
    }
}

#[test]
fn grouping() {
    let mut c = plane();
    let all = search_groups(&mut c, &Plain, &singles(&[1.0, 0.0]), &groups(5, 3));
    let ids: Vec<(String, usize)> = all.iter().map(|g| (g.id.clone(), g.hits.len())).collect();
    assert_eq!(ids, vec![("Rome".to_string(), 2), ("Oslo".to_string(), 1), ("5".to_string(), 1)]);
    let few = search_groups(&mut c, &Plain, &singles(&[1.0, 0.0]), &groups(2, 1));
    let ids: Vec<(String, usize)> = few.iter().map(|g| (g.id.clone(), g.hits.len())).collect();
    assert_eq!(ids, vec![("Rome".to_string(), 1), ("Oslo".to_string(), 1)]);
    assert!(search_groups(&mut c, &Plain, &singles(&[1.0, 0.0]), &groups(0, 3)).is_empty());
    upsert_points(&mut c, &Plain, &vec![request("9", "[1, 0]", "{\"city\": null}")]).ok().unwrap();
    let by_query = query_groups(&mut c, &Plain, &json("[1, 0]"), &groups(5, 3)).ok().unwrap();
    assert!(by_query.iter().any(|g| g.id == "unknown"));
    assert!(matches!(
        query_groups(&mut c, &Plain, &json("[\"x\"]"), &groups(5, 3)),
        Err(ApiError::InvalidQueryVector)
    ));
    assert!(matches!(query_groups(&mut c, &Plain, &json("7"), &groups(5, 3)), Err(ApiError::QueryNotArray)));
}

fn like(positive: &str, negative: &str, limit: usize) -> RecommendRequest {
    let list = |s: &str| match json(s) {
        Json::Array(v) => v,
        _ => panic!("a list"),
    };
    RecommendRequest {
        positive: list(positive),
        negative: list(negative),
        limit: Some(limit),
        with_payload: None,
        with_vector: None,
        score_threshold: None,
    }
}

#[test]
fn recommending() {
    let mut c = plane();
    let hits = recommend_points(&mut c, &Plain, &like("[1]", "[]", 10)).ok().unwrap();
    assert_eq!(keys(&hits), vec!["2", "3", "four"]);
    assert_eq!(float(hits[0].score), 0.8);
    // twice what is liked less what is not: from 3 away from 1, towards "four"
    let hits = recommend_points(&mut c, &Plain, &like("[3]", "[1]", 10)).ok().unwrap();
    assert_eq!(keys(&hits), vec!["four", "2"]);
    assert!(keys(&recommend_points(&mut c, &Plain, &like("[3]", "[1]", 1)).ok().unwrap()).len() == 1);
    // the limit is looked at after the first one
    assert_eq!(recommend_points(&mut c, &Plain, &like("[3, 3, 1]", "[1]", 0)).ok().unwrap().len(), 1);
    let mut req = like("[1]", "[]", 10);
    req.score_threshold = Some(single(0.0));
    assert_eq!(keys(&recommend_points(&mut c, &Plain, &req).ok().unwrap()), vec!["2", "3"]);
    assert!(matches!(recommend_points(&mut c, &Plain, &like("[99, true]", "[1]", 1)), Err(ApiError::PositiveRequired)));
}

fn page(limit: usize, offset: Option<&str>) -> ScrollRequest {
    ScrollRequest {
        limit: Some(limit),
        offset: offset.map(json),
        with_payload: None,
        with_vector: None,
        filter: None,
    }
}

#[test]
fn scrolling_visits_every_point() {
    let mut c = Collection::new(config("c", 1, false, false));
    for i in [30u64, 10, 50, 20, 40] {
        c.upsert(&Plain, point(i, &[0.0], None)).unwrap();
    }
    let mut seen: Vec<String> = Vec::new();
    let mut offset: Option<i64> = None;
    loop {
        let text = offset.map(|n| n.to_string());
        let r = scroll_points(&c, &page(2, text.as_deref()));
        seen.extend(r.points.iter().map(|p| p.id.key()));
        match r.next_page_offset {
            Some(n) => offset = Some(n),
            None => break,
        }
    }
    assert_eq!(seen, vec!["10", "20", "30", "40", "50"]);
    let last = scroll_points(&c, &page(10, Some("\"30\"")));
    assert_eq!(last.points.iter().map(|p| p.id.key()).collect::<Vec<String>>(), vec!["40", "50"]);
    assert!(last.next_page_offset.is_none());
    assert!(last.points[0].payload.as_ref().unwrap().same(&json("{}")));
    let none = scroll_points(&c, &page(0, None));
    assert!(none.points.is_empty() && none.next_page_offset.is_none());
    let mut filtered = page(10, None);
    filtered.filter = Some(json("{\"must\": [{\"has_id\": [10, 50]}]}"));
    assert_eq!(scroll_points(&c, &filtered).points.len(), 2);
}

#[test]
fn numbers_that_points_are_listed_by() {
    let mut c = Collection::new(config("c", 0, false, false));
    for id in ["\"b\"", "5", "\"-3\"", "18446744073709551615"] {
        upsert_points(&mut c, &Plain, &vec![request(id, "[]", "{}")]).ok().unwrap();
    }
    let all: Vec<String> = scroll_points(&c, &page(10, None)).points.iter().map(|p| p.id.key()).collect();
    // the largest number reads as -1, and a text that is none as 0
    assert_eq!(all, vec!["-3", "18446744073709551615", "b", "5"]);
}

#[test]
fn points_by_identifier() {
    let c = plane();
    let ids = match json("[3, \"four\", 99, true, \"1\"]") {
        Json::Array(v) => v,
        _ => panic!("a list"),
    };
    let found = get_points_by_ids(&c, &ids, Some(true), Some(true));
    assert_eq!(found.len(), 3);
    assert!(found[0].0.same(&json("3")));
    assert!(found[1].0.same(&json("\"four\"")));
    assert_eq!(found[2].1.id.key(), "1");
}

#[test]
fn facets_are_counted() {
    let mut c = plane();
    let r = facet_counts(&c, "city", None);
    assert_eq!(r[0], ("Rome".to_string(), 2));
    assert_eq!(r.len(), 3);
    assert_eq!(facet_counts(&c, "city", Some(1)), vec![("Rome".to_string(), 2)]);
    assert!(facet_counts(&c, "missing", None).is_empty());
    upsert_points(&mut c, &Plain, &vec![request("8", "[1, 0]", "{\"flag\": true, \"list\": [1]}")]).ok().unwrap();
    assert_eq!(facet_counts(&c, "flag", None), vec![("true".to_string(), 1)]);
    assert!(facet_counts(&c, "list", None).is_empty());
}

#[test]
fn deleting_in_requests() {
    let mut c = plane();
    let before = c.next_operation_id();
    assert_eq!(delete_point(&mut c, "nobody"), None);
    assert_eq!(delete_point(&mut c, "1"), Some(before + 1));
    assert!(get_point(&c, "1").is_none());
    let req = DeletePointsRequest {
        must: Some(vec![
            FilterMust { key: "city".to_string(), value: json("\"Rome\"") },
            FilterMust { key: "city".to_string(), value: json("\"Oslo\"") },
        ]),
        points: Some(vec![json("\"four\""), json("null")]),
    };
    assert_eq!(delete_points_by_filter(&mut c, &req), before + 2);
    let left: Vec<String> = c.iter().iter().map(|p| p.id.key()).collect();
    // only the first condition counts
    assert_eq!(left, vec!["3"]);
}

#[test]
fn payloads_in_requests() {
    let mut c = plane();
    let ids = Some(vec![json("1"), json("\"four\""), json("99")]);
    assert_eq!(set_payload(&mut c, json("{\"k\": 1}"), &ids), 2);
    assert!(get_point(&c, "1").unwrap().payload.unwrap().get("k").is_some());
    assert!(get_point(&c, "2").unwrap().payload.unwrap().get("k").is_none());
    assert_eq!(delete_payload(&mut c, vec!["k".to_string()], &Some(vec![json("1")])), 1);
    assert!(get_point(&c, "1").unwrap().payload.unwrap().get("k").is_none());
    assert_eq!(overwrite_payload(&mut c, json("{\"only\": 1}"), &Some(vec![json("2")])), 1);
    assert!(get_point(&c, "2").unwrap().payload.unwrap().same(&json("{\"only\": 1}")));
    // without identifiers every point is meant
    assert_eq!(clear_payload(&mut c, &None), 4);
    assert!(c.iter().iter().all(|p| p.payload.is_none()));
}

#[test]
fn vectors_in_update_requests() {
    let mut c = plane();
    let reqs = vec![
        UpdateVectorPoint { id: json("1"), vector: json("[0, 1]") },
        UpdateVectorPoint { id: json("2"), vector: json("{\"name\": [1, 1]}") },
        UpdateVectorPoint { id: json("3"), vector: json("[\"x\"]") },
        UpdateVectorPoint { id: json("99"), vector: json("[1, 1]") },
    ];
    assert_eq!(update_vectors(&mut c, &Plain, &reqs), 2);
    assert_eq!(floats(&get_point(&c, "1").unwrap().vector.unwrap()), vec![0.0, 1.0]);
    assert_eq!(floats(&get_point(&c, "2").unwrap().vector.unwrap()), vec![1.0, 1.0]);
    assert_eq!(floats(&get_point(&c, "3").unwrap().vector.unwrap()), vec![0.0, 1.0]);
    upsert_points(&mut c, &Plain, &vec![request("7", "[[1, 0], [0, 1]]", "{}")]).ok().unwrap();
    assert!(get_point(&c, "7").unwrap().multivector.is_some());
    delete_vectors(&mut c, &Some(vec![json("7")]), &vec!["multivector".to_string()]);
    assert!(get_point(&c, "7").unwrap().multivector.is_none());
}

#[test]
fn operations_in_batches() {
    let mut c = plane();
    let ops = vec![
        json("{\"upsert\": {\"points\": [{\"id\": 10, \"vector\": [1, 0], \"payload\": {\"a\": 1}}, {\"id\": 11, \"vector\": [1]}, {\"id\": -4, \"vector\": [0, 1]}]}}"),
        json("{\"delete\": {\"points\": [1, 2]}}"),
        json("{\"set_payload\": {\"payload\": {\"b\": 2}, \"points\": [10]}}"),
        json("{\"delete_payload\": {\"keys\": [\"a\"], \"points\": [10]}}"),
        json("{\"what\": {}}"),
    ];
    assert_eq!(batch_update(&mut c, &Plain, &ops), vec![true, true, true, true, false]);
    assert!(get_point(&c, "1").is_none() && get_point(&c, "2").is_none());
    assert!(get_point(&c, "10").unwrap().payload.unwrap().same(&json("{\"b\": 2}")));
    assert!(get_point(&c, "11").is_none());
    assert!(process_batch_operation(&mut c, &Plain, &json("{\"overwrite_payload\": {\"payload\": {\"c\": 3}, \"points\": [10]}}")));
    assert!(get_point(&c, "10").unwrap().payload.unwrap().same(&json("{\"c\": 3}")));
    assert!(process_batch_operation(&mut c, &Plain, &json("{\"clear_payload\": {\"points\": [10]}}")));
    assert!(matches!(get_point(&c, "10").unwrap().payload, Some(Json::Null)));
    assert!(!process_batch_operation(&mut c, &Plain, &json("5")));
}

#[test]
fn points_in_batches() {
    let p = parse_point_from_json(&json("{\"id\": \"x\", \"vector\": [1, 2], \"payload\": {\"a\": 1}}")).unwrap();
    assert_eq!(p.id.key(), "x");
    assert_eq!(floats(&p.vector.data), vec![1.0, 2.0]);
    assert!(p.payload.is_some());
    assert!(parse_point_from_json(&json("{\"id\": true, \"vector\": [1]}")).is_none());
    assert!(parse_point_from_json(&json("{\"vector\": [1]}")).is_none());
    assert!(parse_point_from_json(&json("{\"id\": 1, \"vector\": 5}")).is_none());
}

#[test]
fn field_indexes_in_requests() {
    let mut c = plane();
    let schemas = [
        ("a", Some(json("\"integer\"")), PayloadIndexType::Integer),
        ("b", Some(json("{\"type\": \"float\"}")), PayloadIndexType::Float),
        ("c", None, PayloadIndexType::Keyword),
        ("d", Some(json("\"geo\"")), PayloadIndexType::Geo),
        ("e", Some(json("\"nonsense\"")), PayloadIndexType::Keyword),
    ];
    for (name, schema, expected) in schemas {
        create_field_index(&mut c, name, &schema);
        assert!(c.get_payload_indexes().contains(&(name.to_string(), expected)), "{}", name);
    }
    delete_field_index(&mut c, "a");
    assert!(!c.is_field_indexed("a"));
}

fn creation(vectors: Option<(usize, Option<&str>)>, sparse: bool) -> CreateCollectionRequest {
    CreateCollectionRequest {
        vectors: vectors.map(|(size, d)| VectorConfig { size, distance: d.map(|s| s.to_string()) }),
        use_hnsw: true,
        enable_bm25: false,
        sparse_vectors: sparse,
    }
}

#[test]
fn configurations() {
    for (name, distance) in [
        (Some("Cosine"), Distance::Cosine),
        (Some("euclidean"), Distance::Euclidean),
        (Some("Euclidean"), Distance::Euclidean),
        (Some("dot"), Distance::Dot),
        (Some("Dot"), Distance::Dot),
        (Some("Manhattan"), Distance::Cosine),
        (None, Distance::Cosine),
    ] {
        let c = create_collection("n".to_string(), &creation(Some((4, name)), false)).ok().unwrap();
        assert_eq!((c.vector_dim, c.distance, c.use_hnsw, c.enable_bm25), (4, distance, true, false));
        assert_eq!(c.name, "n");
    }
    let sparse = create_collection("n".to_string(), &creation(None, true)).ok().unwrap();
    assert_eq!((sparse.vector_dim, sparse.distance, sparse.enable_bm25), (0, Distance::Cosine, true));
    assert!(matches!(
        create_collection("n".to_string(), &creation(None, false)),
        Err(ApiError::VectorsRequired)
    ));
    let config = |size: usize| VectorConfig { size, distance: None };
    assert!(choose_vectors(false, None, vec![]).unwrap().is_none());
    assert_eq!(choose_vectors(true, Some(config(3)), vec![config(4)]).unwrap().unwrap().size, 3);
    assert_eq!(choose_vectors(true, None, vec![config(4), config(5)]).unwrap().unwrap().size, 4);
    assert!(choose_vectors(true, None, vec![]).err().unwrap().starts_with("Invalid vectors configuration"));
}

#[test]
fn collections_describe_themselves() {
    let c = plane();
    let info = get_collection(&c, REST_INDEXING_THRESHOLD);
    assert_eq!((info.points_count, info.vectors_count, info.indexed_vectors_count), (4, 4, 4));
    assert_eq!((info.vector_dim, info.distance, info.segments_count), (2, Distance::Cosine, 1));
    assert_eq!(f64::from_bits(info.optimizer_config.deleted_threshold.bits), 0.2);
    assert_eq!(info.optimizer_config.indexing_threshold, 10000);
    assert_eq!(get_collection(&c, GRPC_INDEXING_THRESHOLD).optimizer_config.indexing_threshold, 20000);
    let full = build_recovery_result(&c);
    assert_eq!((full.collection.as_str(), full.points_count, full.note.is_none()), ("plane", 4, true));
    let empty = build_recovery_result(&Collection::new(config("e", 3, false, false)));
    assert!(empty.note.unwrap().starts_with("Collection created with config only."));
}

#[test]
fn aliases() {
    let actions = match json(
        "[{\"create_alias\": {\"alias_name\": \"a\", \"collection_name\": \"c\"}}, {\"create_alias\": {\"alias_name\": \"a\"}}, {\"delete_alias\": {\"alias_name\": \"d\"}, \"rename_alias\": {\"old_alias_name\": \"x\", \"new_alias_name\": \"y\"}}, 5]",
    ) {
        Json::Array(v) => v,
        _ => panic!("a list"),
    };
    let got: Vec<String> = update_aliases(&actions)
        .iter()
        .map(|a| match a {
            AliasAction::Create { alias, collection } => format!("create {} {}", alias, collection),
            AliasAction::Delete { alias } => format!("delete {}", alias),
            AliasAction::Rename { from, to } => format!("rename {} {}", from, to),
        })
        .collect();
    assert_eq!(got, vec!["create a c", "delete d", "rename x y"]);
}

#[test]
fn snapshot_locations() {
    let name = |s: &str| match snapshot_location(s) {
        SnapshotLocation::Url(u) => format!("url {}", u),
        SnapshotLocation::Name(n) => format!("name {}", n),
    };
    assert_eq!(name("http://h/s.snapshot"), "url http://h/s.snapshot");
    assert_eq!(name("https://h/s.snapshot"), "url https://h/s.snapshot");
    assert_eq!(name("file:///var/lib/s.snapshot"), "name s.snapshot");
    assert_eq!(name("file://file://s.snapshot"), "name s.snapshot");
    assert_eq!(name("file://dir/"), "name ");
    assert_eq!(name("s.snapshot"), "name s.snapshot");
    assert_eq!(name("dir/s.snapshot"), "name dir/s.snapshot");
}

#[test]
fn uploads_keep_the_last_snapshot() {
    let mut u = Upload::new();
    u.part("other", Some("o".to_string()), vec![9]);
    assert!(u.data.is_none());
    u.part("snapshot", Some("a".to_string()), vec![1]);
    u.part("snapshot", None, vec![2, 3]);
    assert_eq!(u.data, Some(vec![2, 3]));
    assert_eq!(u.filename, None);
    assert!(Upload::wants("snapshot") && !Upload::wants("snap"));
}

#[test]
fn the_server_describes_itself() {
    assert_eq!(RestApi::root_info().title, "vectx - vector search engine");
    assert_eq!(RestApi::health_check().version, "0.2.1");
    assert_eq!(RestApi::static_dir(), "./static");
    let text = metrics_endpoint("1.2.3", 2, &vec![3, 4]);
    assert_eq!(
        text,
        "# HELP app_info information about vectx server\n# TYPE app_info gauge\napp_info{name=\"vectx\",version=\"1.2.3\"} 1\n# HELP cluster_enabled is cluster support enabled\n# TYPE cluster_enabled gauge\ncluster_enabled 0\n# HELP collections_total number of collections\n# TYPE collections_total gauge\ncollections_total 2\n# HELP points_total total number of points across all collections\n# TYPE points_total gauge\npoints_total 7\n"
    );
}

#[test]
fn conditions_keep_all_that_they_list() {
    let cond = json("{\"key\": \"color\", \"match\": {\"any\": [\"red\", \"blue\"]}}");
    let filter = PayloadFilter::new(parse_field_condition(&cond).unwrap());
    for (color, expected) in [("red", true), ("blue", true), ("green", false)] {
        let p = point(1, &[0.0], Some(json(&format!("{{\"color\": \"{}\"}}", color))));
        assert_eq!(filter.matches(&p), expected, "{}", color);
    }
    let cond = json("{\"key\": \"price\", \"range\": {\"gt\": 1, \"lt\": 5}}");
    let filter = PayloadFilter::new(parse_field_condition(&cond).unwrap());
    for (price, expected) in [(1, false), (3, true), (5, false), (9, false)] {
        let p = point(1, &[0.0], Some(json(&format!("{{\"price\": {}}}", price))));
        assert_eq!(filter.matches(&p), expected, "{}", price);
    }
}

#[test]
fn equality_goes_both_ways() {
    let values = [
        "1", "1.0", "\"1\"", "true", "null", "[]", "[1, \"1\"]", "[[2], [[1]]]", "{\"a\": 1, \"b\": [1]}",
        "{\"b\": [1], \"a\": 1}", "[{\"b\": [1], \"a\": 1}]",
    ];
    for a in values {
        for b in values {
            assert_eq!(values_equal(&json(a), &json(b)), values_equal(&json(b), &json(a)), "{} {}", a, b);
        }
    }
    assert!(values_equal(&json("1"), &json("1.0")));
    assert!(values_equal(&json("[[2], [[1]]]"), &json("[1, \"1\"]")));
    assert!(!values_equal(&json("[]"), &json("[]")));
    assert!(!values_equal(&json("\"1\""), &json("1")));
    assert!(!values_equal(&json("\"true\""), &json("true")));
    assert!(values_equal(&json("[{\"b\": [1], \"a\": 1}]"), &json("{\"a\": 1, \"b\": [1]}")));
}
