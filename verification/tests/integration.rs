use vectx::collection::{build_index, Collection, Error};
use vectx::config::{CollectionConfig, Distance, PayloadIndexType};
use vectx::filter::{FilterCondition, PayloadFilter};
use vectx::ieee::{Double, Real};
use vectx::json::{Json, Number, NumberForm};
use vectx::kernels::Kernels;
use vectx::point::{MultiVector, MultiVectorError, Point, PointId, SparseVector, Vector};
use vectx::similarity::{max_sim, sparse_dot};

/// Arithmetic in single precision, one operation after the other.
struct Plain;

fn single(x: f32) -> Real {
    Real { bits: x.to_bits() }
}

fn singles(v: &[f32]) -> Vec<Real> {
    v.iter().map(|x| single(*x)).collect()
}

fn float(r: Real) -> f32 {
    f32::from_bits(r.bits)
}

fn floats(v: &[Real]) -> Vec<f32> {
    v.iter().map(|r| float(*r)).collect()
}

fn dot_of(a: &[f32], b: &[f32]) -> f32 {
    a.iter().zip(b.iter()).map(|(x, y)| x * y).sum()
}

fn length_of(a: &[f32]) -> f32 {
    dot_of(a, a).sqrt()
}

impl Kernels for Plain {
    fn dot(&self, a: &[Real], b: &[Real]) -> Real {
        single(dot_of(&floats(a), &floats(b)))
    }

    fn l2_distance(&self, a: &[Real], b: &[Real]) -> Real {
        let d: Vec<f32> = floats(a).iter().zip(floats(b).iter()).map(|(x, y)| x - y).collect();
        single(length_of(&d))
    }

    fn cosine_similarity(&self, a: &[Real], b: &[Real]) -> Real {
        let (a, b) = (floats(a), floats(b));
        let lengths = length_of(&a) * length_of(&b);
        single(if lengths == 0.0 { 0.0 } else { dot_of(&a, &b) / lengths })
    }

    fn normalized(&self, a: &[Real]) -> Vec<Real> {
        let a = floats(a);
        let n = length_of(&a);
        a.iter().map(|x| single(if n == 0.0 { *x } else { x / n })).collect()
    }

    fn plus(&self, x: Real, y: Real) -> Real {
        single(float(x) + float(y))
    }

    fn minus(&self, x: Real, y: Real) -> Real {
        single(float(x) - float(y))
    }

    fn times(&self, x: Real, y: Real) -> Real {
        single(float(x) * float(y))
    }

    fn quotient(&self, x: Real, y: Real) -> Real {
        single(float(x) / float(y))
    }

    fn count(&self, n: usize) -> Real {
        single(n as f32)
    }

    fn text_search(&self, documents: &Vec<(String, String)>, query: &str, limit: usize) -> Vec<(String, Real)> {
        let mut found: Vec<(String, Real)> = Vec::new();
        for (name, text) in documents {
            let hits = text.split_whitespace().filter(|w| query.split_whitespace().any(|q| q == *w)).count();
            if hits > 0 {
                found.push((name.clone(), single(hits as f32)));
            }
        }
        found.sort_by(|a, b| float(b.1).partial_cmp(&float(a.1)).unwrap());
        found.truncate(limit);
        found
    }

    fn double_of(&self, n: i64) -> Double {
        Double { bits: (n as f64).to_bits() }
    }

    fn narrowed(&self, d: Double) -> Real {
        single(f64::from_bits(d.bits) as f32)
    }

    fn double_text(&self, d: Double) -> String {
        format!("{:?}", f64::from_bits(d.bits))
    }
}

/// A JSON text as a value of the library.
fn json(text: &str) -> Json {
    from_serde(&serde_json::from_str::<serde_json::Value>(text).unwrap())
}

fn from_serde(v: &serde_json::Value) -> Json {
    match v {
        serde_json::Value::Null => Json::Null,
        serde_json::Value::Bool(b) => Json::Bool(*b),
        serde_json::Value::Number(n) => {
            let double = n.as_f64().unwrap();
            let form = if let Some(u) = n.as_u64() {
                NumberForm::Natural(u)
            } else if let Some(i) = n.as_i64() {
                NumberForm::Negative(i)
            } else {
                NumberForm::Decimal(n.to_string())
            };
            Json::Number(Number { form, double: Double { bits: double.to_bits() }, single: single(double as f32) })
        }
        serde_json::Value::String(s) => Json::Text(s.clone()),
        serde_json::Value::Array(a) => Json::Array(a.iter().map(from_serde).collect()),
        serde_json::Value::Object(o) => Json::Object(o.iter().map(|(k, v)| (k.clone(), from_serde(v))).collect()),
    }
}

fn config(name: &str, vector_dim: usize, use_hnsw: bool, enable_bm25: bool) -> CollectionConfig {
    CollectionConfig { name: name.to_string(), vector_dim, distance: Distance::Cosine, use_hnsw, enable_bm25 }
}

fn point(id: u64, vector: &[f32], payload: Option<Json>) -> Point {
    Point::new(PointId::Integer(id), Vector::new(singles(vector)), payload)
}

#[test]
fn test_collection_creation() {
    let config = CollectionConfig {
        name: "test_collection".to_string(),
        vector_dim: 128,
        distance: Distance::Cosine,
        use_hnsw: true,
        enable_bm25: false,
    };

    let collection = Collection::new(config);
    assert_eq!(collection.name(), "test_collection");
    assert_eq!(collection.vector_dim(), 128);
    assert_eq!(collection.count(), 0);
}

#[test]
fn test_point_insertion() {
    let config = CollectionConfig {
        name: "test".to_string(),
        vector_dim: 3,
        distance: Distance::Cosine,
        use_hnsw: false,
        enable_bm25: false,
    };

    let mut collection = Collection::new(config);

    let point = Point::new(
        PointId::String("point1".to_string()),
        Vector::new(singles(&[1.0, 2.0, 3.0])),
        Some(json("{\"name\": \"test\"}")),
    );

    assert!(collection.upsert(&Plain, point).is_ok());
    assert_eq!(collection.count(), 1);

    let retrieved = collection.get("point1");
    assert!(retrieved.is_some());
    assert_eq!(retrieved.unwrap().vector.dim(), 3);
}

#[test]
fn test_vector_search() {
    let config = CollectionConfig {
        name: "test".to_string(),
        vector_dim: 3,
        distance: Distance::Cosine,
        use_hnsw: false, // Use linear search for small dataset
        enable_bm25: false,
    };

    let mut collection = Collection::new(config);

    // Insert some points
    for i in 0..10 {
        let vector = Vector::new(singles(&[i as f32, i as f32, i as f32]));
        let point = Point::new(PointId::Integer(i), vector, None);
        collection.upsert(&Plain, point).unwrap();
    }

    // Search for similar vector
    let query = Vector::new(singles(&[5.0, 5.0, 5.0]));
    let results = collection.search(&Plain, &query, 3, None::<&PayloadFilter>);

    assert_eq!(results.len(), 3);
    // Should find points close to [5,5,5]
    assert!(float(results[0].1) > 0.9); // High similarity
}

#[test]
fn test_bm25_search() {
    let config = CollectionConfig {
        name: "test".to_string(),
        vector_dim: 3,
        distance: Distance::Cosine,
        use_hnsw: false,
        enable_bm25: true,
    };

    let mut collection = Collection::new(config);

    // Insert documents with text
    for i in 0..10 {
        let point = Point::new(
            PointId::String(format!("doc{}", i)),
            Vector::new(singles(&[0.0, 0.0, 0.0])),
            Some(json(&format!("{{\"text\": \"document about topic {}\"}}", i))),
        );
        collection.upsert(&Plain, point).unwrap();
    }

    // Search
    let results = collection.search_text(&Plain, "topic", 5);
    assert!(!results.is_empty());
    assert!(float(results[0].1) >= 0.0); // Should have a score (can be 0.0)
}

#[test]
fn test_payload_filtering() {
    let config = CollectionConfig {
        name: "test".to_string(),
        vector_dim: 3,
        distance: Distance::Cosine,
        use_hnsw: false,
        enable_bm25: false,
    };

    let mut collection = Collection::new(config);

    // Insert points with different categories
    for i in 0..20 {
        let category = if i % 2 == 0 { "A" } else { "B" };
        let point = Point::new(
            PointId::Integer(i),
            Vector::new(singles(&[i as f32, i as f32, i as f32])),
            Some(json(&format!("{{\"category\": \"{}\", \"score\": {}}}", category, i))),
        );
        collection.upsert(&Plain, point).unwrap();
    }

    // Search with filter
    let query = Vector::new(singles(&[10.0, 10.0, 10.0]));
    let filter = PayloadFilter::new(FilterCondition::Equals {
        field: "category".to_string(),
        value: json("\"A\""),
    });

    let results = collection.search(&Plain, &query, 10, Some(&filter));

    // All results should have category "A"
    for (point, _) in results {
        let category = point.payload.as_ref().and_then(|p| p.get_text("category")).map(|s| s.as_str());
        assert_eq!(category, Some("A"));
    }
}

#[test]
fn test_vector_search_with_collection() {
    // Create collection
    let config = CollectionConfig {
        name: "products".to_string(),
        vector_dim: 3, // Simple mock vectors
        distance: Distance::Cosine,
        use_hnsw: false,
        enable_bm25: false,
    };

    let mut collection = Collection::new(config);

    // Insert products with mock vectors
    let products = [
        (vec![1.0, 0.0, 0.0], json("{\"name\": \"Prosciutto cotto\", \"price\": 1.99, \"category\": \"salumi\"}")),
        (vec![0.9, 0.1, 0.0], json("{\"name\": \"Prosciutto crudo\", \"price\": 2.49, \"category\": \"salumi\"}")),
        (vec![0.8, 0.2, 0.0], json("{\"name\": \"Mortadella\", \"price\": 1.79, \"category\": \"salumi\"}")),
        (vec![0.0, 0.0, 1.0], json("{\"name\": \"iPhone 15\", \"price\": 999.0, \"category\": \"electronics\"}")),
        (vec![0.1, 0.0, 0.9], json("{\"name\": \"Samsung Galaxy\", \"price\": 899.0, \"category\": \"electronics\"}")),
    ];

    for (i, (vec, payload)) in products.iter().enumerate() {
        let point = Point::new(PointId::Integer(i as u64), Vector::new(singles(vec)), Some(payload.clone()));
        collection.upsert(&Plain, point).unwrap();
    }

    // Query with a vector similar to salumi products
    let query_vector = Vector::new(singles(&[0.95, 0.05, 0.0]));

    let results = collection.search(&Plain, &query_vector, 3, None::<&PayloadFilter>);
    assert_eq!(results.len(), 3);

    // Top results should be salumi products (similar vectors)
    let top_category = results[0].0.payload.as_ref().and_then(|p| p.get_text("category")).map(|s| s.as_str());
    assert_eq!(top_category, Some("salumi"));
}

#[test]
fn default_config() {
    let c = CollectionConfig::default();
    assert_eq!(c.name, "");
    assert_eq!(c.vector_dim, 128);
    assert_eq!(c.distance, Distance::Cosine);
    assert!(c.use_hnsw);
    assert!(!c.enable_bm25);
}

#[test]
fn storing_counts_versions() {
    let mut c = Collection::new(config("c", 2, false, false));
    assert!(c.is_empty());
    c.upsert(&Plain, point(7, &[1.0, 0.0], None)).unwrap();
    assert_eq!(c.get("7").unwrap().version, 0);
    c.upsert(&Plain, point(7, &[0.0, 1.0], Some(json("{\"a\": 1}")))).unwrap();
    let p = c.get("7").unwrap();
    assert_eq!(p.version, 1);
    assert_eq!(floats(&p.vector.data), vec![0.0, 1.0]);
    assert_eq!(c.count(), 1);
    assert!(c.get("8").is_none());
}

#[test]
fn wrong_length_is_refused() {
    let mut c = Collection::new(config("c", 3, false, false));
    let r = c.upsert(&Plain, point(1, &[1.0, 2.0], None));
    assert_eq!(r, Err(Error::InvalidDimension { expected: 3, actual: 2 }));
    assert_eq!(c.count(), 0);
    let mut any = Collection::new(config("any", 0, false, false));
    assert!(any.upsert(&Plain, point(1, &[1.0, 2.0], None)).is_ok());
    assert!(any.upsert(&Plain, point(2, &[1.0], None)).is_ok());
    assert_eq!(any.count(), 2);
}

#[test]
fn deleted_points_are_missing() {
    let mut c = Collection::new(config("c", 1, true, true));
    for i in 0..5 {
        c.upsert(&Plain, point(i, &[i as f32], Some(json("{\"text\": \"word\"}")))).unwrap();
    }
    assert_eq!(c.search_text(&Plain, "word", 10).len(), 5);
    assert_eq!(c.delete("1"), Ok(true));
    assert_eq!(c.delete("1"), Ok(false));
    assert!(c.get("1").is_none());
    assert_eq!(c.count(), 4);
    for i in [0, 2, 3, 4] {
        assert!(c.get(&i.to_string()).is_some());
    }
    let names: Vec<String> = c.search_text(&Plain, "word", 10).into_iter().map(|m| m.0).collect();
    assert!(!names.contains(&"1".to_string()));
    assert_eq!(names.len(), 4);
    assert_eq!(c.delete_vector("2"), Ok(true));
    assert_eq!(c.count(), 3);
}

#[test]
fn payload_operations() {
    let mut c = Collection::new(config("c", 1, false, false));
    c.upsert(&Plain, point(1, &[1.0], Some(json("{\"a\": 1, \"b\": 2}")))).unwrap();
    assert_eq!(c.set_payload("1", json("{\"b\": 3, \"c\": 4}")), Ok(true));
    assert!(c.get("1").unwrap().payload.unwrap().same(&json("{\"a\": 1, \"b\": 3, \"c\": 4}")));
    assert_eq!(c.delete_payload_keys("1", &["a".to_string(), "zz".to_string()]), Ok(true));
    assert!(c.get("1").unwrap().payload.unwrap().same(&json("{\"b\": 3, \"c\": 4}")));
    assert_eq!(c.overwrite_payload("1", json("{\"d\": null}")), Ok(true));
    assert!(c.get("1").unwrap().payload.unwrap().same(&json("{\"d\": null}")));
    assert_eq!(c.clear_payload("1"), Ok(true));
    assert!(c.get("1").unwrap().payload.is_none());
    assert_eq!(c.set_payload("1", json("[1]")), Ok(true));
    assert!(c.get("1").unwrap().payload.unwrap().same(&json("[1]")));
    // what is no object is not merged
    assert_eq!(c.set_payload("1", json("{\"a\": 1}")), Ok(true));
    assert!(c.get("1").unwrap().payload.unwrap().same(&json("[1]")));
    assert_eq!(c.set_payload("nobody", json("{}")), Ok(false));
    assert_eq!(c.overwrite_payload("nobody", json("{}")), Ok(false));
    assert_eq!(c.delete_payload_keys("nobody", &[]), Ok(false));
    assert_eq!(c.clear_payload("nobody"), Ok(false));
    assert_eq!(c.get("1").unwrap().version, 0);
}

#[test]
fn vectors_are_replaced() {
    let mut c = Collection::new(config("c", 2, true, false));
    c.upsert(&Plain, point(1, &[1.0, 0.0], None)).unwrap();
    assert_eq!(c.update_vector(&Plain, "1", Vector::new(singles(&[0.0, 2.0]))), Ok(true));
    assert_eq!(floats(&c.get("1").unwrap().vector.data), vec![0.0, 2.0]);
    assert_eq!(c.update_vector(&Plain, "2", Vector::new(singles(&[0.0, 2.0]))), Ok(false));
    let rows = MultiVector::new(vec![singles(&[1.0, 0.0]), singles(&[0.0, 1.0])]).ok().unwrap();
    assert_eq!(c.update_multivector("1", Some(rows)), Ok(true));
    assert_eq!(c.get("1").unwrap().multivector.unwrap().vectors().len(), 2);
    assert_eq!(c.update_multivector("1", None), Ok(true));
    assert!(c.get("1").unwrap().multivector.is_none());
}

#[test]
fn field_indexes() {
    let mut c = Collection::new(config("c", 1, false, false));
    assert!(!c.is_field_indexed("city"));
    assert_eq!(c.create_payload_index("city", PayloadIndexType::Keyword), Ok(true));
    assert_eq!(c.create_payload_index("age", PayloadIndexType::Integer), Ok(true));
    assert_eq!(c.create_payload_index("city", PayloadIndexType::Text), Ok(true));
    assert!(c.is_field_indexed("city"));
    let all = c.get_payload_indexes();
    assert_eq!(all.len(), 2);
    assert!(all.contains(&("city".to_string(), PayloadIndexType::Text)));
    assert_eq!(c.delete_payload_index("city"), Ok(true));
    assert_eq!(c.delete_payload_index("city"), Ok(false));
    assert!(!c.is_field_indexed("city"));
}

#[test]
fn operation_numbers_count_up() {
    let mut c = Collection::new(config("c", 1, false, false));
    assert_eq!(c.next_operation_id(), 0);
    assert_eq!(c.next_operation_id(), 1);
    assert_eq!(c.next_operation_id(), 2);
}

#[test]
fn batches_store_everything() {
    let mut c = Collection::new(config("c", 1, true, true));
    let text = json("{\"text\": \"word\"}");
    let points = vec![
        point(1, &[1.0], Some(text.clone())),
        point(2, &[2.0], Some(text.clone())),
        point(1, &[3.0], Some(text.clone())),
    ];
    let job = c.batch_upsert(&Plain, points).unwrap();
    assert!(job.is_none());
    assert_eq!(c.count(), 2);
    let p = c.get("1").unwrap();
    assert_eq!(floats(&p.vector.data), vec![3.0]);
    assert_eq!(p.version, 1);
    // a batch leaves the text index as it was
    assert!(c.search_text(&Plain, "word", 10).is_empty());
    // after a refusal inside a batch the batch stays open
    let bad = vec![point(3, &[1.0], None), point(4, &[1.0, 2.0], None), point(5, &[1.0], None)];
    assert!(c.batch_upsert(&Plain, bad).is_err());
    assert!(c.get("3").is_some());
    assert!(c.get("5").is_none());
    c.upsert(&Plain, point(6, &[1.0], Some(text))).unwrap();
    assert!(c.search_text(&Plain, "word", 10).is_empty());
    assert!(c.end_batch().unwrap().is_none());
}

#[test]
fn many_points_use_the_index() {
    let mut c = Collection::new(config("c", 2, true, false));
    let n: u64 = 10_050;
    let mut points = Vec::new();
    for i in 0..n {
        let angle = i as f32 / n as f32;
        points.push(point(i, &[angle.cos(), angle.sin()], None));
    }
    let job = c.batch_upsert(&Plain, points).unwrap();
    let from = job.expect("a rebuild is due");
    assert_eq!(from.len(), n as usize);
    // a second batch finds the rebuild running
    assert!(c.batch_upsert(&Plain, vec![]).unwrap().is_none());
    let index = build_index(&Plain, &from[..200].to_vec());
    assert_eq!(index.len(), 200);
    c.install_index(index);
    let query = Vector::new(singles(&[1.0, 0.0]));
    let found = c.search(&Plain, &query, 5, None::<&PayloadFilter>);
    assert!(!found.is_empty() && found.len() <= 5);
    for pair in found.windows(2) {
        assert!(float(pair[0].1) >= float(pair[1].1));
    }
    for (p, _) in &found {
        assert!(p.id.key().parse::<u64>().unwrap() < 200);
    }
}

#[test]
fn many_points_without_an_index_are_scanned() {
    let mut c = Collection::new(CollectionConfig {
        name: "c".to_string(),
        vector_dim: 1,
        distance: Distance::Dot,
        use_hnsw: false,
        enable_bm25: false,
    });
    let points = (0..10_001u64).map(|i| point(i, &[i as f32], None)).collect();
    assert!(c.batch_upsert_with_prewarm(&Plain, points, true).unwrap().is_none());
    let query = Vector::new(singles(&[2.0]));
    let found = c.search(&Plain, &query, 2, None::<&PayloadFilter>);
    let got: Vec<(String, f32)> = found.iter().map(|(p, s)| (p.id.key(), float(*s))).collect();
    assert_eq!(got, vec![("10000".to_string(), 20000.0), ("9999".to_string(), 19998.0)]);
}

#[test]
fn distances_score_as_they_should() {
    for (distance, best, score, worst) in [
        (Distance::Cosine, "1", 4.0f32, "3"),
        (Distance::Dot, "1", 4.0, "3"),
        (Distance::Euclidean, "2", 0.0, "1"),
    ] {
        let mut c = Collection::new(CollectionConfig {
            name: "c".to_string(),
            vector_dim: 2,
            distance,
            use_hnsw: false,
            enable_bm25: false,
        });
        c.upsert(&Plain, point(1, &[4.0, 0.0], None)).unwrap();
        c.upsert(&Plain, point(2, &[1.0, 0.0], None)).unwrap();
        c.upsert(&Plain, point(3, &[0.0, 1.0], None)).unwrap();
        let query = Vector::new(singles(&[2.0, 0.0]));
        let found = c.search(&Plain, &query, 10, None::<&PayloadFilter>);
        assert_eq!(found.len(), 3);
        assert_eq!(found[0].0.id.key(), best);
        assert_eq!(float(found[0].1), score);
        assert_eq!(found[2].0.id.key(), worst);
        assert_eq!(c.search(&Plain, &query, 0, None::<&PayloadFilter>).len(), 0);
    }
}

#[test]
fn multivectors_and_sparse_vectors() {
    let mut c = Collection::new(CollectionConfig {
        name: "c".to_string(),
        vector_dim: 0,
        distance: Distance::Dot,
        use_hnsw: false,
        enable_bm25: false,
    });
    let rows = MultiVector::new(vec![singles(&[1.0, 0.0]), singles(&[0.0, 1.0])]).ok().unwrap();
    let mut a = Point::new_multi(PointId::String("a".to_string()), rows, None);
    assert_eq!(floats(&a.vector.data), vec![1.0, 0.0]);
    a.add_sparse_vector("words".to_string(), SparseVector::new(vec![3, 5], singles(&[1.0, 2.0])));
    c.upsert(&Plain, a).unwrap();
    let mut b = point(2, &[1.0, 0.0], None);
    b.add_sparse_vector("words".to_string(), SparseVector::new(vec![4], singles(&[1.0])));
    c.upsert(&Plain, b).unwrap();
    c.upsert(&Plain, point(3, &[], None)).unwrap();
    let query = MultiVector::new(vec![singles(&[1.0, 0.0]), singles(&[0.0, 1.0])]).ok().unwrap();
    let found = c.search_multivector(&Plain, &query, 10, None::<&PayloadFilter>);
    let got: Vec<(String, f32)> = found.iter().map(|(p, s)| (p.id.key(), float(*s))).collect();
    assert_eq!(got, vec![("a".to_string(), 2.0), ("2".to_string(), 1.0), ("3".to_string(), 0.0)]);
    let sparse = SparseVector::new(vec![5, 9], singles(&[3.0, 1.0]));
    let found = c.search_sparse(&Plain, &sparse, "words", 10, None::<&PayloadFilter>);
    let got: Vec<(String, f32)> = found.iter().map(|(p, s)| (p.id.key(), float(*s))).collect();
    assert_eq!(got, vec![("a".to_string(), 6.0)]);
    assert!(c.search_sparse(&Plain, &sparse, "other", 10, None::<&PayloadFilter>).is_empty());
}

#[test]
fn multivectors_are_checked() {
    assert_eq!(MultiVector::new(vec![]).err(), Some(MultiVectorError::Empty));
    assert_eq!(MultiVector::new(vec![vec![]]).err(), Some(MultiVectorError::ZeroDimension));
    let uneven = vec![singles(&[1.0]), singles(&[1.0]), singles(&[1.0, 2.0])];
    assert_eq!(MultiVector::new(uneven).err(), Some(MultiVectorError::RowLength { row: 2 }));
    assert_eq!(MultiVector::from_single(vec![]).err(), Some(MultiVectorError::ZeroDimension));
    assert_eq!(MultiVector::from_single(singles(&[1.0, 2.0])).ok().unwrap().dim(), 2);
}

#[test]
fn everything_is_listed() {
    let mut c = Collection::new(config("c", 1, false, false));
    for i in 0..4 {
        c.upsert(&Plain, point(i, &[0.0], None)).unwrap();
    }
    let keys: Vec<String> = c.iter().iter().map(|p| p.id.key()).collect();
    assert_eq!(keys, vec!["0", "1", "2", "3"]);
    assert_eq!(c.get_all_points().len(), 4);
    assert!(!c.use_hnsw() && !c.enable_bm25());
    assert_eq!(c.distance(), Distance::Cosine);
}

#[test]
fn best_matches_are_summed_up() {
    let query = MultiVector::new(vec![singles(&[1.0, 0.0]), singles(&[0.0, 2.0])]).ok().unwrap();
    let document =
        MultiVector::new(vec![singles(&[3.0, 1.0]), singles(&[-1.0, 4.0]), singles(&[0.0, 0.0])]).ok().unwrap();
    // 3 and 8
    assert_eq!(float(max_sim(&Plain, Distance::Dot, &query, &document)), 11.0);
    // nearest: [0, 0] at 1, and [0, 0] at 2
    assert_eq!(float(max_sim(&Plain, Distance::Euclidean, &query, &document)), -3.0);
    let same = max_sim(&Plain, Distance::Cosine, &query, &query);
    assert!((float(same) - 2.0).abs() < 1e-6);
}

#[test]
fn shared_indices_are_multiplied() {
    let a = SparseVector::new(vec![1, 5, 9], singles(&[1.0, 2.0, 3.0]));
    let b = SparseVector::new(vec![9, 2, 5], singles(&[10.0, 7.0, 100.0]));
    assert_eq!(float(sparse_dot(&Plain, &a, &b)), 230.0);
    let other = SparseVector::new(vec![2, 3], singles(&[1.0, 1.0]));
    assert_eq!(float(sparse_dot(&Plain, &a, &other)), 0.0);
    // an index without a value does not count
    let short = SparseVector::new(vec![1, 5], singles(&[4.0]));
    assert_eq!(float(sparse_dot(&Plain, &a, &short)), 4.0);
}
