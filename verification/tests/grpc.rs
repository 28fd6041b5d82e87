use vectx::collection::{Collection, Error};
use vectx::config::{CollectionConfig, Distance};
use vectx::grpc::{
    count, create, delete, get, name_distance, query, recommend, scroll, search, upsert, Code, GrpcApi, PointStruct,
    PointsService, ProtoDistance, QdrantService, Refusal, VectorParams, VectorVariant, VectorsConfig,
};
use vectx::grpc_values::{
    json_to_proto_value, parse_point_id, proto_value_to_json, to_proto_point_id, PointIdOptions, ProtoValue,
};
use vectx::ieee::{Double, Real};
use vectx::json::{Json, Number, NumberForm};
use vectx::kernels::Kernels;
use vectx::point::{Point, PointId, Vector};

/// Arithmetic in single precision, one operation after the other.
struct Plain;

fn single(x: f32) -> Real {
    Real { bits: x.to_bits() }
}

fn singles(v: &[f32]) -> Vec<Real> {
    v.iter().map(|x| single(*x)).collect()
}

fn float(r: Real) -> f32 {
    f32::from_bits(r.bits)
}

fn floats(v: &[Real]) -> Vec<f32> {
    v.iter().map(|r| float(*r)).collect()
}

fn dot_of(a: &[f32], b: &[f32]) -> f32 {
    a.iter().zip(b.iter()).map(|(x, y)| x * y).sum()
}

fn length_of(a: &[f32]) -> f32 {
    dot_of(a, a).sqrt()
}

impl Kernels for Plain {
    fn dot(&self, a: &[Real], b: &[Real]) -> Real {
        single(dot_of(&floats(a), &floats(b)))
    }

    fn l2_distance(&self, a: &[Real], b: &[Real]) -> Real {
        let d: Vec<f32> = floats(a).iter().zip(floats(b).iter()).map(|(x, y)| x - y).collect();
        single(length_of(&d))
    }

    fn cosine_similarity(&self, a: &[Real], b: &[Real]) -> Real {
        let (a, b) = (floats(a), floats(b));
        let lengths = length_of(&a) * length_of(&b);
        single(if lengths == 0.0 { 0.0 } else { dot_of(&a, &b) / lengths })
    }

    fn normalized(&self, a: &[Real]) -> Vec<Real> {
        let a = floats(a);
        let n = length_of(&a);
        a.iter().map(|x| single(if n == 0.0 { *x } else { x / n })).collect()
    }

    fn plus(&self, x: Real, y: Real) -> Real {
        single(float(x) + float(y))
    }

    fn minus(&self, x: Real, y: Real) -> Real {
        single(float(x) - float(y))
    }

    fn times(&self, x: Real, y: Real) -> Real {
        single(float(x) * float(y))
    }

    fn quotient(&self, x: Real, y: Real) -> Real {
        single(float(x) / float(y))
    }

    fn count(&self, n: usize) -> Real {
        single(n as f32)
    }

    fn text_search(&self, documents: &Vec<(String, String)>, query: &str, limit: usize) -> Vec<(String, Real)> {
        let mut found: Vec<(String, Real)> = Vec::new();
        for (name, text) in documents {
            let hits = text.split_whitespace().filter(|w| query.split_whitespace().any(|q| q == *w)).count();
            if hits > 0 {
                found.push((name.clone(), single(hits as f32)));
            }
        }
        found.sort_by(|a, b| float(b.1).partial_cmp(&float(a.1)).unwrap());
        found.truncate(limit);
        found
    }

    fn double_of(&self, n: i64) -> Double {
        Double { bits: (n as f64).to_bits() }
    }

    fn narrowed(&self, d: Double) -> Real {
        single(f64::from_bits(d.bits) as f32)
    }

    fn double_text(&self, d: Double) -> String {
        format!("{:?}", f64::from_bits(d.bits))
    }
}

/// A JSON text as a value of the library.
fn json(text: &str) -> Json {
    from_serde(&serde_json::from_str::<serde_json::Value>(text).unwrap())
}

fn from_serde(v: &serde_json::Value) -> Json {
    match v {
        serde_json::Value::Null => Json::Null,
        serde_json::Value::Bool(b) => Json::Bool(*b),
        serde_json::Value::Number(n) => {
            let double = n.as_f64().unwrap();
            let form = if let Some(u) = n.as_u64() {
                NumberForm::Natural(u)
            } else if let Some(i) = n.as_i64() {
                NumberForm::Negative(i)
            } else {
                NumberForm::Decimal(n.to_string())
            };
            Json::Number(Number { form, double: Double { bits: double.to_bits() }, single: single(double as f32) })
        }
        serde_json::Value::String(s) => Json::Text(s.clone()),
        serde_json::Value::Array(a) => Json::Array(a.iter().map(from_serde).collect()),
        serde_json::Value::Object(o) => Json::Object(o.iter().map(|(k, v)| (k.clone(), from_serde(v))).collect()),
    }
}

fn config(name: &str, vector_dim: usize, use_hnsw: bool, enable_bm25: bool) -> CollectionConfig {
    CollectionConfig { name: name.to_string(), vector_dim, distance: Distance::Cosine, use_hnsw, enable_bm25 }
}

fn num(n: u64) -> Option<PointIdOptions> {
    Some(PointIdOptions::Num(n))
}

fn uuid(s: &str) -> Option<PointIdOptions> {
    Some(PointIdOptions::Uuid(s.to_string()))
}

fn shown(id: &PointIdOptions) -> String {
    match id {
        PointIdOptions::Num(n) => format!("num {}", n),
        PointIdOptions::Uuid(s) => format!("uuid {}", s),
    }
}

fn dense(id: Option<PointIdOptions>, vector: &[f32]) -> PointStruct {
    PointStruct { id, vectors: Some(VectorVariant::Dense(singles(vector))), payload: vec![] }
}

fn double_value(x: f64) -> ProtoValue {
    ProtoValue::Double(Double { bits: x.to_bits() })
}

fn same_value(a: &ProtoValue, b: &ProtoValue) -> bool {
    match (a, b) {
        (ProtoValue::Absent, ProtoValue::Absent) => true,
        (ProtoValue::Null, ProtoValue::Null) => true,
        (ProtoValue::Double(x), ProtoValue::Double(y)) => x.bits == y.bits,
        (ProtoValue::Integer(x), ProtoValue::Integer(y)) => x == y,
        (ProtoValue::Text(x), ProtoValue::Text(y)) => x == y,
        (ProtoValue::Bool(x), ProtoValue::Bool(y)) => x == y,
        (ProtoValue::List(x), ProtoValue::List(y)) => {
            x.len() == y.len() && x.iter().zip(y.iter()).all(|(p, q)| same_value(p, q))
        }
        (ProtoValue::Struct(x), ProtoValue::Struct(y)) => {
            x.len() == y.len() && x.iter().zip(y.iter()).all(|(p, q)| p.0 == q.0 && same_value(&p.1, &q.1))
        }
        _ => false,
    }
}

fn sample() -> ProtoValue {
    ProtoValue::Struct(vec![
        ("i".to_string(), ProtoValue::Integer(-5)),
        ("n".to_string(), ProtoValue::Integer(7)),
        ("d".to_string(), double_value(2.5)),
        ("whole".to_string(), double_value(3.0)),
        ("t".to_string(), ProtoValue::Text("x".to_string())),
        ("b".to_string(), ProtoValue::Bool(true)),
        ("z".to_string(), ProtoValue::Null),
        ("l".to_string(), ProtoValue::List(vec![ProtoValue::Integer(1), ProtoValue::List(vec![])])),
    ])
}

#[test]
fn values_come_back() {
    let j = proto_value_to_json(&Plain, &sample());
    assert_eq!(j.get_number("n").and_then(|n| n.as_u64()), Some(7));
    assert_eq!(j.get_number("i").and_then(|n| n.as_i64()), Some(-5));
    assert_eq!(j.get_number("whole").map(|n| n.to_text()), Some("3.0".to_string()));
    assert!(same_value(&json_to_proto_value(&j), &sample()));
}

#[test]
fn json_comes_back() {
    let j = proto_value_to_json(&Plain, &sample());
    let back = proto_value_to_json(&Plain, &json_to_proto_value(&j));
    assert!(back.same(&j) && j.same(&back));
    let low = Number {
        form: NumberForm::Negative(i64::MIN),
        double: Double { bits: (i64::MIN as f64).to_bits() },
        single: single(i64::MIN as f32),
    };
    let nested = Json::Array(vec![
        Json::Null,
        Json::Bool(true),
        Json::Text("x".to_string()),
        Json::Number(low),
        Json::Object(vec![("deep".to_string(), Json::Array(vec![j])), ("empty".to_string(), Json::Object(vec![]))]),
    ]);
    let back = proto_value_to_json(&Plain, &json_to_proto_value(&nested));
    assert!(back.same(&nested) && nested.same(&back));
}

#[test]
fn values_that_json_cannot_hold() {
    for v in [ProtoValue::Absent, double_value(f64::NAN), double_value(f64::INFINITY), ProtoValue::Null] {
        assert!(matches!(proto_value_to_json(&Plain, &v), Json::Null));
    }
    // a number above the range of signed integers is sent in double precision
    assert!(same_value(&json_to_proto_value(&json("18446744073709551615")), &double_value(18446744073709551615.0)));
    assert!(same_value(&json_to_proto_value(&json("9223372036854775807")), &ProtoValue::Integer(i64::MAX)));
}

#[test]
fn identifiers() {
    assert_eq!(parse_point_id(&num(5)), Some("5".to_string()));
    assert_eq!(parse_point_id(&uuid("a-b")), Some("a-b".to_string()));
    assert_eq!(parse_point_id(&None), None);
    assert_eq!(shown(&to_proto_point_id(&PointId::Integer(5))), "num 5");
    assert_eq!(shown(&to_proto_point_id(&PointId::String("s".to_string()))), "uuid s");
    assert_eq!(shown(&to_proto_point_id(&PointId::Uuid("u".to_string()))), "uuid u");
}

#[test]
fn stored_points_come_back() {
    let mut c = Collection::new(config("c", 2, false, false));
    let payload = match sample() {
        ProtoValue::Struct(f) => f,
        _ => panic!("a struct"),
    };
    let points = vec![
        PointStruct { id: num(1), vectors: Some(VectorVariant::Dense(singles(&[1.0, 0.0]))), payload },
        PointStruct {
            id: uuid("x"),
            vectors: Some(VectorVariant::Named(vec![("v".to_string(), singles(&[0.0, 1.0]))])),
            payload: vec![],
        },
        dense(uuid("007"), &[1.0, 1.0]),
    ];
    assert!(upsert(&mut c, &Plain, &points).ok().unwrap().is_none());
    assert_eq!(count(&c), 3);
    let read = get(&c, &vec![uuid("x"), num(1), None, num(9)]);
    assert_eq!(read.len(), 2);
    assert_eq!(shown(&read[0].id), "uuid x");
    assert_eq!(floats(&read[0].vector), vec![0.0, 1.0]);
    assert!(read[0].payload.is_empty());
    assert_eq!(shown(&read[1].id), "num 1");
    let came = match sample() {
        ProtoValue::Struct(f) => f,
        _ => panic!("a struct"),
    };
    assert!(same_value(&ProtoValue::Struct(came), &ProtoValue::Struct(read.into_iter().nth(1).unwrap().payload)));
    // a text that reads as a number is stored as that number
    assert!(get(&c, &vec![uuid("007")]).is_empty());
    assert_eq!(get(&c, &vec![num(7)]).len(), 1);
}

#[test]
fn refused_points_in_messages() {
    let mut c = Collection::new(config("c", 2, false, false));
    let r = upsert(&mut c, &Plain, &vec![dense(num(1), &[1.0, 0.0]), dense(None, &[1.0, 0.0])]);
    assert!(matches!(r, Err(Refusal::PointIdRequired)));
    let bare = PointStruct { id: num(1), vectors: None, payload: vec![] };
    assert!(matches!(upsert(&mut c, &Plain, &vec![bare]), Err(Refusal::VectorRequired)));
    let empty = PointStruct { id: num(1), vectors: Some(VectorVariant::Named(vec![])), payload: vec![] };
    assert!(matches!(upsert(&mut c, &Plain, &vec![empty]), Err(Refusal::VectorRequired)));
    let r = upsert(&mut c, &Plain, &vec![dense(num(1), &[1.0])]);
    assert!(matches!(r, Err(Refusal::Core(Error::InvalidDimension { expected: 2, actual: 1 }))));
    assert_eq!(count(&c), 0);
    let words = [
        (Refusal::CollectionNotFound, Code::NotFound, "Collection not found"),
        (Refusal::SnapshotNotFound, Code::NotFound, "Snapshot not found"),
        (Refusal::PointIdRequired, Code::InvalidArgument, "Point ID required"),
        (Refusal::VectorRequired, Code::InvalidArgument, "Vector required"),
        (Refusal::QueryVectorRequired, Code::InvalidArgument, "Query vector required"),
        (Refusal::PositiveRequired, Code::InvalidArgument, "At least one valid positive example required"),
        (Refusal::VectorConfigRequired, Code::InvalidArgument, "Vector configuration required"),
        (
            Refusal::Core(Error::InvalidDimension { expected: 2, actual: 1 }),
            Code::Internal,
            "Invalid vector dimension: expected 2, got 1",
        ),
    ];
    for (refusal, code, text) in words {
        assert_eq!(refusal.code(), code);
        assert_eq!(refusal.message(), text);
    }
}

fn four() -> Collection {
    let mut c = Collection::new(config("c", 2, false, false));
    let points = vec![
        dense(num(1), &[1.0, 0.0]),
        dense(num(2), &[0.8, 0.6]),
        dense(num(3), &[0.0, 1.0]),
        dense(uuid("four"), &[-1.0, 0.0]),
    ];
    upsert(&mut c, &Plain, &points).ok().unwrap();
    c
}

#[test]
fn searching_in_messages() {
    let mut c = four();
    let found = search(&mut c, &Plain, singles(&[2.0, 0.0]), 2);
    let got: Vec<(String, f32, u64)> = found.iter().map(|p| (shown(&p.id), float(p.score), p.version)).collect();
    assert_eq!(got, vec![("num 1".to_string(), 1.0, 0), ("num 2".to_string(), 0.8, 0)]);
    let named = Some(VectorVariant::Named(vec![("v".to_string(), singles(&[0.0, 1.0]))]));
    assert_eq!(shown(&query(&mut c, &Plain, &named, 1).ok().unwrap()[0].id), "num 3");
    assert!(matches!(query(&mut c, &Plain, &None, 1), Err(Refusal::QueryVectorRequired)));
}

#[test]
fn recommending_in_messages() {
    let mut c = four();
    let found = recommend(&mut c, &Plain, &vec![num(1)], &vec![], 10).ok().unwrap();
    let ids: Vec<String> = found.iter().map(|p| shown(&p.id)).collect();
    assert_eq!(ids, vec!["num 2", "num 3", "uuid four"]);
    assert!(recommend(&mut c, &Plain, &vec![num(1)], &vec![num(3)], 0).ok().unwrap().is_empty());
    let away = recommend(&mut c, &Plain, &vec![num(3)], &vec![num(1)], 1).ok().unwrap();
    assert_eq!(shown(&away[0].id), "uuid four");
    assert!(matches!(
        recommend(&mut c, &Plain, &vec![num(77), None], &vec![num(1)], 3),
        Err(Refusal::PositiveRequired)
    ));
}

#[test]
fn scrolling_in_messages() {
    let c = four();
    let mut seen: Vec<String> = Vec::new();
    let mut offset: Option<PointIdOptions> = None;
    for _ in 0..10 {
        let (points, next) = scroll(&c, &offset, Some(3));
        seen.extend(points.iter().map(|p| shown(&p.id)));
        offset = next;
        if offset.is_none() {
            break;
        }
    }
    assert_eq!(seen, vec!["num 1", "num 2", "num 3", "uuid four"]);
    assert_eq!(scroll(&c, &None, None).0.len(), 4);
    // a key that no point has leaves nothing
    assert!(scroll(&c, &num(99), None).0.is_empty());
    let (none, next) = scroll(&c, &None, Some(0));
    assert!(none.is_empty() && next.is_none());
}

#[test]
fn deleting_in_messages() {
    let mut c = four();
    delete(&mut c, &None);
    assert_eq!(count(&c), 4);
    delete(&mut c, &Some(vec![num(2), uuid("four"), None, num(99)]));
    assert_eq!(count(&c), 2);
    assert_eq!(get(&c, &vec![num(1), num(2), num(3)]).len(), 2);
}

#[test]
fn configurations_in_messages() {
    let params = |size: usize, distance: ProtoDistance| VectorParams { size, distance };
    for (d, expected) in [
        (ProtoDistance::Cosine, Distance::Cosine),
        (ProtoDistance::Euclid, Distance::Euclidean),
        (ProtoDistance::Dot, Distance::Dot),
        (ProtoDistance::Other, Distance::Cosine),
    ] {
        let c = create("n".to_string(), &Some(VectorsConfig::Params(params(4, d)))).ok().unwrap();
        assert_eq!((c.vector_dim, c.distance, c.use_hnsw, c.enable_bm25), (4, expected, true, false));
    }
    let map = VectorsConfig::ParamsMap(vec![("a".to_string(), params(7, ProtoDistance::Dot))]);
    assert_eq!(create("n".to_string(), &Some(map)).ok().unwrap().vector_dim, 7);
    for nothing in [None, Some(VectorsConfig::ParamsMap(vec![]))] {
        assert!(matches!(create("n".to_string(), &nothing), Err(Refusal::VectorConfigRequired)));
    }
    assert_eq!(name_distance(Distance::Euclidean), ProtoDistance::Euclid);
}

#[test]
fn services() {
    assert_eq!(GrpcApi::address(6334), "0.0.0.0:6334");
    let reply = QdrantService.health_check("1.0");
    assert_eq!((reply.title.as_str(), reply.version.as_str()), ("vectx", "1.0"));
    assert_eq!(PointsService::new(5).storage, 5);
}
