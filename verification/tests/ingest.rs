use nn_rs::json::parse_vectors;
use nn_rs::Metric;
use nn_rs::NearestNeighbours;
use nn_rs::NnError;

#[test]
fn test_nearest_neighbours_from_json() {
    let text = "{\"id_1\": [1.0, 2.0, 3.0], \"id_2\": [4.0, 2.0, 7.0], \"id_3\": [0.5, 0.25, 8.0]}";
    let metric = String::from("cosine");
    let _index = NearestNeighbours::from_json(metric, text).unwrap();
}

#[test]
fn from_json_stores_each_member_as_a_vector() {
    let text = "{\"id_1\": [1.0, 2.0, 3.0], \"id_2\": [4, 2.5, -7e2], \"empty\": []}";
    let index = NearestNeighbours::from_json(String::from("manhattan"), text).unwrap();
    assert_eq!(index.metric(), Metric::Manhattan);
    assert_eq!(index.len(), 3);
    assert_eq!(
        index.get("id_1"),
        Some(&vec![0x3ff0_0000_0000_0000, 0x4000_0000_0000_0000, 0x4008_0000_0000_0000])
    );
    assert_eq!(
        index.get("id_2"),
        Some(&vec![4.0f64.to_bits(), 2.5f64.to_bits(), (-700.0f64).to_bits()])
    );
    assert_eq!(index.get("empty"), Some(&vec![]));
    assert_eq!(index.get("id_3"), None);
}

#[test]
fn from_json_of_an_empty_object_is_an_empty_store() {
    let index = NearestNeighbours::from_json(String::from("euclidean"), " { } ").unwrap();
    assert_eq!(index.len(), 0);
    assert_eq!(index.metric(), Metric::Euclidean);
}

#[test]
fn from_json_rejects_text_that_is_not_json() {
    for text in ["", "{", "{\"a\": [1.0, }", "{\"a\": [1.0]} trailing", "{a: [1]}", "[1, 2"] {
        match NearestNeighbours::from_json(String::from("cosine"), text) {
            Err(NnError::InvalidJson(reason)) => assert!(!reason.is_empty()),
            other => panic!("{:?} gave {:?}", text, other),
        }
    }
}

#[test]
fn from_json_rejects_documents_of_another_shape() {
    for text in [
        "[[1.0, 2.0]]",
        "3.5",
        "null",
        "\"a\"",
        "{\"a\": 1.0}",
        "{\"a\": \"1.0\"}",
        "{\"a\": {\"b\": [1.0]}}",
        "{\"a\": [1.0, \"2.0\"]}",
        "{\"a\": [1.0, null]}",
        "{\"a\": [1.0], \"b\": [[2.0]]}",
        "{\"a\": [1.0], \"b\": true}",
    ] {
        match NearestNeighbours::from_json(String::from("cosine"), text) {
            Err(e) => assert_eq!(e, NnError::UnexpectedJson, "{:?}", text),
            Ok(index) => panic!("{:?} gave {:?}", text, index),
        }
    }
}

#[test]
fn parse_vectors_hands_back_names_and_bit_patterns() {
    let entries = parse_vectors("{\"a\": [1.5, 0], \"b\": [-0.0, 1e-320]}").unwrap();
    assert_eq!(
        entries,
        vec![
            (String::from("a"), vec![0x3ff8_0000_0000_0000, 0]),
            (String::from("b"), vec![0x8000_0000_0000_0000, 1e-320f64.to_bits()]),
        ]
    );
    assert_eq!(parse_vectors("{}"), Ok(vec![]));
    assert_eq!(parse_vectors("[]"), Err(NnError::UnexpectedJson));
    assert!(matches!(parse_vectors("nope"), Err(NnError::InvalidJson(_))));
}

#[test]
fn parse_vectors_keeps_the_last_of_repeated_names() {
    let index =
        NearestNeighbours::from_json(String::from("cosine"), "{\"a\": [1.0], \"a\": [2.0]}").unwrap();
    assert_eq!(index.len(), 1);
    assert_eq!(index.get("a"), Some(&vec![2.0f64.to_bits()]));
}

#[test]
fn from_json_store_answers_queries() {
    let text = "{\"a\": [1.0, 2.0, 3.0], \"b\": [7.0, 2.0, 9.0], \"c\": [4.0, 2.1, 3.4]}";
    let index = NearestNeighbours::from_json(String::from("manhattan"), text).unwrap();
    let manhattan = |_metric: Metric, a: &Vec<u64>, b: &Vec<u64>| -> u64 {
        let mut sum = 0f64;
        for i in 0..a.len() {
            sum += (f64::from_bits(a[i]) - f64::from_bits(b[i])).abs();
        }
        sum.to_bits()
    };
    let query = vec![4.0f64.to_bits(), 2.0f64.to_bits(), 3.0f64.to_bits()];
    assert!(index.has_dimension(3));
    let found = index.query_by_vector(&query, 2, manhattan).unwrap();
    assert_eq!(found, vec![String::from("c"), String::from("a")]);
}
