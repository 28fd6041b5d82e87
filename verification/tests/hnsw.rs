use vectx::hnsw::{layer_above, HnswIndex};
use vectx::ieee::{Double, Real};
use vectx::kernels::Kernels;
use vectx::point::{Point, PointId, Vector};

/// Arithmetic in single precision, one operation after the other.
struct Plain;

fn single(x: f32) -> Real {
    Real { bits: x.to_bits() }
}

fn singles(v: &[f32]) -> Vec<Real> {
    v.iter().map(|x| single(*x)).collect()
}

fn float(r: Real) -> f32 {
    f32::from_bits(r.bits)
}

fn floats(v: &[Real]) -> Vec<f32> {
    v.iter().map(|r| float(*r)).collect()
}

fn dot_of(a: &[f32], b: &[f32]) -> f32 {
    a.iter().zip(b.iter()).map(|(x, y)| x * y).sum()
}

fn length_of(a: &[f32]) -> f32 {
    dot_of(a, a).sqrt()
}

impl Kernels for Plain {
    fn dot(&self, a: &[Real], b: &[Real]) -> Real {
        single(dot_of(&floats(a), &floats(b)))
    }

    fn l2_distance(&self, a: &[Real], b: &[Real]) -> Real {
        let d: Vec<f32> = floats(a).iter().zip(floats(b).iter()).map(|(x, y)| x - y).collect();
        single(length_of(&d))
    }

    fn cosine_similarity(&self, a: &[Real], b: &[Real]) -> Real {
        let (a, b) = (floats(a), floats(b));
        let lengths = length_of(&a) * length_of(&b);
        single(if lengths == 0.0 { 0.0 } else { dot_of(&a, &b) / lengths })
    }

    fn normalized(&self, a: &[Real]) -> Vec<Real> {
        let a = floats(a);
        let n = length_of(&a);
        a.iter().map(|x| single(if n == 0.0 { *x } else { x / n })).collect()
    }

    fn plus(&self, x: Real, y: Real) -> Real {
        single(float(x) + float(y))
    }

    fn minus(&self, x: Real, y: Real) -> Real {
        single(float(x) - float(y))
    }

    fn times(&self, x: Real, y: Real) -> Real {
        single(float(x) * float(y))
    }

    fn quotient(&self, x: Real, y: Real) -> Real {
        single(float(x) / float(y))
    }

    fn count(&self, n: usize) -> Real {
        single(n as f32)
    }

    fn text_search(&self, documents: &Vec<(String, String)>, query: &str, limit: usize) -> Vec<(String, Real)> {
        let mut found: Vec<(String, Real)> = Vec::new();
        for (name, text) in documents {
            let hits = text.split_whitespace().filter(|w| query.split_whitespace().any(|q| q == *w)).count();
            if hits > 0 {
                found.push((name.clone(), single(hits as f32)));
            }
        }
        found.sort_by(|a, b| float(b.1).partial_cmp(&float(a.1)).unwrap());
        found.truncate(limit);
        found
    }

    fn double_of(&self, n: i64) -> Double {
        Double { bits: (n as f64).to_bits() }
    }

    fn narrowed(&self, d: Double) -> Real {
        single(f64::from_bits(d.bits) as f32)
    }

    fn double_text(&self, d: Double) -> String {
        format!("{:?}", f64::from_bits(d.bits))
    }
}

#[test]
fn test_hnsw_insert_search() {
    let mut index = HnswIndex::new(16, 3);

    // Insert some test vectors
    for i in 0..10 {
        let vector = Vector::new(singles(&[i as f32, i as f32, i as f32]));
        let point = Point::new(PointId::Integer(i), vector, None);
        index.insert(&Plain, point);
    }

    // Search
    let query = Vector::new(singles(&[5.0, 5.0, 5.0]));
    let results = index.search(&Plain, &query, 3, None);
    assert!(!results.is_empty());
}

fn unit(i: u64, n: u64) -> Vector {
    let angle = i as f32 / n as f32 * 3.0;
    Vector::new(singles(&[angle.cos(), angle.sin()]))
}

#[test]
fn an_empty_index_finds_nothing() {
    let mut index = HnswIndex::new(16, 3);
    assert!(index.is_empty());
    assert_eq!(index.len(), 0);
    assert!(index.search(&Plain, &unit(0, 1), 5, None).is_empty());
    assert!(!index.remove("1"));
}

#[test]
fn one_layer_is_searched_exactly_while_there_is_room() {
    // with every node on the lowest layer and more room than nodes, a search finds them all
    let mut index = HnswIndex::new(16, 1);
    let n = 30;
    for i in 0..n {
        index.insert(&Plain, Point::new(PointId::Integer(i), unit(i, n), None));
    }
    let found = index.search(&Plain, &unit(0, n), 30, Some(64));
    assert_eq!(found.len(), 30);
    assert_eq!(found[0].0.id.key(), "0");
    assert!((float(found[0].1) - 1.0).abs() < 1e-6);
    for pair in found.windows(2) {
        assert!(float(pair[0].1) >= float(pair[1].1));
    }
    let keys: Vec<String> = found.iter().map(|(p, _)| p.id.key()).collect();
    for i in 0..n {
        assert!(keys.contains(&i.to_string()));
    }
}

#[test]
fn a_search_is_never_narrower_than_asked_for() {
    let mut index = HnswIndex::new(16, 1);
    for i in 0..20 {
        index.insert(&Plain, Point::new(PointId::Integer(i), unit(i, 20), None));
    }
    assert_eq!(index.search(&Plain, &unit(3, 20), 20, Some(1)).len(), 20);
    assert_eq!(index.search(&Plain, &unit(3, 20), 2, None).len(), 2);
    assert_eq!(index.search(&Plain, &unit(3, 20), 0, None).len(), 0);
}

#[test]
fn removed_points_are_not_found() {
    let mut index = HnswIndex::new(16, 3);
    for i in 0..10 {
        index.insert(&Plain, Point::new(PointId::Integer(i), unit(i, 10), None));
    }
    assert!(index.remove("4"));
    assert!(!index.remove("4"));
    assert_eq!(index.len(), 9);
    for (p, _) in index.search(&Plain, &unit(4, 10), 10, None) {
        assert!(p.id.key() != "4");
    }
    index.insert(&Plain, Point::new(PointId::Integer(4), unit(4, 10), None));
    assert_eq!(index.len(), 10);
}

#[test]
fn a_key_can_be_inserted_again() {
    let mut index = HnswIndex::new(16, 1);
    index.insert(&Plain, Point::new(PointId::Integer(1), unit(0, 4), None));
    index.insert(&Plain, Point::new(PointId::Integer(1), unit(2, 4), None));
    assert_eq!(index.len(), 2);
    assert!(index.remove("1"));
    // the node that was inserted first is still there
    assert_eq!(index.len(), 1);
    let found = index.search(&Plain, &unit(0, 4), 1, None);
    assert!((float(found[0].1) - 1.0).abs() < 1e-6);
    assert!(index.remove("1"));
    assert!(index.is_empty());
}

#[test]
fn a_large_index_is_searched() {
    let mut index = HnswIndex::new(16, 3);
    let n = 1100;
    for i in 0..n {
        index.insert(&Plain, Point::new(PointId::Integer(i), unit(i, n), None));
    }
    let found = index.search(&Plain, &unit(0, n), 5, None);
    assert!(!found.is_empty() && found.len() <= 5);
    assert!((float(found[0].1) - 1.0).abs() < 1e-3);
    // points come to different layers by chance, so that some are on the lowest and some are not
    let all = index.search(&Plain, &unit(0, n), n as usize, None);
    assert!(all.len() <= n as usize);
}

#[test]
fn the_same_points_on_the_same_layers_are_found_alike() {
    let build = || {
        let mut index = HnswIndex::new(4, 3);
        for i in 0..60u64 {
            let place = (i * 37) % 60;
            index.insert_at(&Plain, Point::new(PointId::Integer(place), unit(place, 60), None), (i % 3) as usize);
        }
        index
    };
    let mut a = build();
    let mut b = build();
    for i in [0u64, 13, 31, 59] {
        let from_a: Vec<(String, u32)> =
            a.search(&Plain, &unit(i, 60), 7, Some(3)).iter().map(|(p, s)| (p.id.key(), s.bits)).collect();
        let from_b: Vec<(String, u32)> =
            b.search(&Plain, &unit(i, 60), 7, Some(3)).iter().map(|(p, s)| (p.id.key(), s.bits)).collect();
        assert_eq!(from_a, from_b);
    }
}

#[test]
fn a_narrow_search_stops_where_nothing_waiting_is_nearer() {
    // nodes 0 and 1 are linked, node 2 can be reached through node 1 alone
    let mut index = HnswIndex::new(1, 1);
    for (i, v) in [[0.6, 0.8], [0.0, 1.0], [-0.8, -0.6]].iter().enumerate() {
        let vector = Vector::new(singles(v));
        index.insert_at(&Plain, Point::new(PointId::Integer(i as u64), vector, None), 0);
    }
    let query = Vector::new(singles(&[0.8, -0.6]));
    // dot products with the query: 0.0, -0.6, -0.28
    let narrow = index.search(&Plain, &query, 1, Some(1));
    assert_eq!(narrow[0].0.id.key(), "0");
    let wide = index.search(&Plain, &query, 3, Some(3));
    let keys: Vec<String> = wide.iter().map(|(p, _)| p.id.key()).collect();
    assert_eq!(keys, vec!["0", "2", "1"]);
    // two are kept: node 1 is met and kept first, so node 2 is met through it
    let kept = index.search(&Plain, &query, 2, Some(2));
    assert_eq!(kept[1].0.id.key(), "2");
}

#[test]
fn heads_lead_one_layer_up() {
    assert_eq!(layer_above(0, 3, true), Some(1));
    assert_eq!(layer_above(1, 3, true), Some(2));
    assert_eq!(layer_above(2, 3, true), None);
    assert_eq!(layer_above(0, 3, false), None);
    assert_eq!(layer_above(0, 1, true), None);
}

#[test]
fn any_number_of_links_is_taken() {
    let mut index = HnswIndex::new(usize::MAX, 1);
    for i in 0..5 {
        index.insert(&Plain, Point::new(PointId::Integer(7), unit(i, 5), None));
        assert_eq!(index.len(), i as usize + 1);
        assert!(!index.is_empty());
    }
    assert!(index.remove("7"));
    assert_eq!(index.len(), 4);
}
