use vectx::ieee::{Double, Real};
use vectx::json::{Json, Number, NumberForm};
use vectx::order::{sort_order, RankQueue, Ranked};
use vectx::text::{begins_with, decimal, has_any_word, has_text, is_white_space, read_i64, read_u64, same_text, signed_decimal};

fn single(x: f32) -> Real {
    Real { bits: x.to_bits() }
}

fn double(x: f64) -> Double {
    Double { bits: x.to_bits() }
}

fn natural(n: u64) -> Json {
    Json::Number(Number { form: NumberForm::Natural(n), double: double(n as f64), single: single(n as f32) })
}

fn decimal_number(x: f64, text: &str) -> Json {
    Json::Number(Number { form: NumberForm::Decimal(text.to_string()), double: double(x), single: single(x as f32) })
}

fn text(s: &str) -> Json {
    Json::Text(s.to_string())
}

fn object(members: Vec<(&str, Json)>) -> Json {
    Json::Object(members.into_iter().map(|(k, v)| (k.to_string(), v)).collect())
}

#[test]
fn singles_compare_as_numbers_do() {
    let values = [
        f32::NEG_INFINITY, -1.5, -1.0, -0.0, 0.0, 1.0e-40, 1.0, 1.5, f32::INFINITY, f32::NAN, -f32::NAN,
    ];
    for a in values {
        for b in values {
            assert_eq!(single(a).lt(single(b)), a < b);
            assert_eq!(single(a).ge(single(b)), a >= b);
            if a < b {
                assert!(single(a).rank_near() < single(b).rank_near());
                assert!(single(a).rank_best() > single(b).rank_best());
            }
        }
        assert_eq!(single(a).is_nan(), a.is_nan());
        assert_eq!(single(a).negated().bits, (-a).to_bits());
        assert_eq!(single(a).negated().negated(), single(a));
    }
    assert!(single(f32::INFINITY).rank_near() < single(f32::NAN).rank_near());
    assert!(single(f32::NEG_INFINITY).rank_best() < single(f32::NAN).rank_best());
}

#[test]
fn doubles_compare_as_numbers_do() {
    let values = [f64::NEG_INFINITY, -2.5, -0.0, 0.0, 5e-324, 2.5, f64::MAX, f64::INFINITY, f64::NAN];
    for a in values {
        for b in values {
            assert_eq!(double(a).lt(double(b)), a < b);
            assert_eq!(double(a).le(double(b)), a <= b);
            assert_eq!(double(a).equals(double(b)), a == b);
        }
        assert_eq!(double(a).is_nan(), a.is_nan());
        assert_eq!(double(a).is_finite(), a.is_finite());
    }
}

#[test]
fn numbers_are_written_and_read() {
    for n in [0, 7, 10, 99, 100, 12345678901234567890, u64::MAX] {
        assert_eq!(decimal(n), n.to_string());
        assert_eq!(read_u64(&n.to_string()), Some(n));
    }
    for n in [0, -1, 42, i64::MIN, i64::MAX] {
        assert_eq!(signed_decimal(n), n.to_string());
        assert_eq!(read_i64(&n.to_string()), Some(n));
    }
    for s in ["", "+", "-", "12a", " 1", "1 ", "18446744073709551616", "99999999999999999999999", "--1", "+-1", "0x1"] {
        assert_eq!(read_u64(s), s.parse::<u64>().ok(), "{}", s);
        assert_eq!(read_i64(s), s.parse::<i64>().ok(), "{}", s);
    }
    for s in ["+5", "007", "-0", "-5", "9223372036854775808", "-9223372036854775808", "-9223372036854775809"] {
        assert_eq!(read_u64(s), s.parse::<u64>().ok(), "{}", s);
        assert_eq!(read_i64(s), s.parse::<i64>().ok(), "{}", s);
    }
}

#[test]
fn texts_are_searched() {
    assert!(same_text("abc", "abc"));
    assert!(!same_text("abc", "abd"));
    assert!(!same_text("abc", "ab"));
    assert!(has_text("hello world", "lo wo"));
    assert!(has_text("abc", ""));
    assert!(!has_text("abc", "abcd"));
    assert!(begins_with("file:///x", "file://"));
    assert!(!begins_with("fil", "file://"));
}

#[test]
fn words_are_found_in_any_case() {
    // words are split at white space and compared in lower case
    assert!(has_any_word("GREEN tea", "a cup of green water"));
    assert!(has_any_word("x\u{3000}Tea", "TEAPOT"));
    assert!(!has_any_word("coffee", "a cup of tea"));
    assert!(!has_any_word("", "a cup of tea"));
    assert!(!has_any_word(" \t\n", "a cup of tea"));
    assert!(has_any_word("ÄPFEL", "zwei äpfel"));
}

#[test]
fn json_values_compare() {
    assert!(natural(1).same(&natural(1)));
    assert!(!natural(1).same(&decimal_number(1.0, "1.0")));
    assert!(decimal_number(0.0, "0.0").same(&decimal_number(-0.0, "-0.0")));
    assert!(!text("1").same(&natural(1)));
    let a = object(vec![("x", natural(1)), ("y", Json::Array(vec![Json::Null, Json::Bool(true)]))]);
    let b = object(vec![("y", Json::Array(vec![Json::Null, Json::Bool(true)])), ("x", natural(1))]);
    assert!(a.same(&b));
    assert!(a.clone().same(&a));
    let c = object(vec![("y", Json::Array(vec![Json::Bool(true), Json::Null])), ("x", natural(1))]);
    assert!(!a.same(&c));
    assert!(!a.same(&object(vec![("x", natural(1))])));
}

#[test]
fn json_members() {
    let a = object(vec![("n", natural(5)), ("t", text("s")), ("l", Json::Array(vec![])), ("o", object(vec![]))]);
    assert_eq!(a.get_number("n").and_then(|n| n.as_u64()), Some(5));
    assert_eq!(a.get_text("t").map(|s| s.as_str()), Some("s"));
    assert!(a.get_array("l").is_some());
    assert!(a.get_object("o").is_some());
    assert!(a.get_text("n").is_none());
    assert!(a.get("missing").is_none());
    assert!(text("x").get("t").is_none());
    let big = Number { form: NumberForm::Natural(u64::MAX), double: double(0.0), single: single(0.0) };
    assert_eq!(big.as_i64(), None);
    assert_eq!(big.to_text(), "18446744073709551615");
    let low = Number { form: NumberForm::Negative(-3), double: double(-3.0), single: single(-3.0) };
    assert_eq!(low.as_u64(), None);
    assert_eq!(low.as_i64(), Some(-3));
    assert_eq!(low.to_text(), "-3");
}

#[test]
fn objects_are_merged_and_stripped() {
    let a = object(vec![("a", natural(1)), ("b", natural(2))]);
    let merged = a.clone().merge(&object(vec![("b", natural(3)), ("c", natural(4))]));
    assert!(merged.same(&object(vec![("a", natural(1)), ("b", natural(3)), ("c", natural(4))])));
    assert!(a.clone().merge(&natural(1)).same(&a));
    assert!(natural(1).merge(&a).same(&natural(1)));
    let stripped = merged.strip(&["a".to_string(), "c".to_string(), "zz".to_string()]);
    assert!(stripped.same(&object(vec![("b", natural(3))])));
}

#[test]
fn ranks_are_sorted_stably() {
    assert_eq!(sort_order(&vec![3, 1, 2, 1]), vec![1, 3, 2, 0]);
    assert!(sort_order(&vec![]).is_empty());
    let mut queue = RankQueue::new();
    for (idx, rank) in [5i64, -2, 9, -2].iter().enumerate() {
        queue.push(Ranked { rank: *rank, idx });
    }
    assert_eq!(queue.len(), 4);
    let mut order = Vec::new();
    loop {
        match queue.pop() {
            Some(r) => order.push(r.idx),
            None => break,
        }
    }
    assert_eq!(order, vec![1, 3, 0, 2]);
}

#[test]
fn white_space_is_that_of_unicode() {
    for n in 0..=0x10ffffu32 {
        if let Some(c) = char::from_u32(n) {
            assert_eq!(is_white_space(c), c.is_whitespace(), "{:x}", n);
        }
    }
}
