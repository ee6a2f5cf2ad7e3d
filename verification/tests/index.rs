use nalgebra::DVector;
use nn_rs::Metric;
use nn_rs::NearestNeighbours;

fn bits(values: &[f64]) -> Vec<u64> {
    values.iter().map(|value| value.to_bits()).collect()
}

fn column(vector: &Vec<u64>) -> DVector<f64> {
    DVector::from_iterator(vector.len(), vector.iter().map(|b| f64::from_bits(*b)))
}

fn distance(metric: Metric, a: &Vec<u64>, b: &Vec<u64>) -> u64 {
    let a = column(a);
    let b = column(b);
    assert_eq!(a.shape(), b.shape());
    let d = match metric {
        Metric::Cosine => 1f64 - a.dot(&b) / (a.norm() * b.norm()),
        Metric::Euclidean => (a - b).norm(),
        Metric::Manhattan => (a - b).abs().sum(),
    };
    d.to_bits()
}

fn names(ids: &[&str]) -> Vec<String> {
    ids.iter().map(|id| String::from(*id)).collect()
}

fn four_vectors(metric: &str) -> NearestNeighbours {
    let mut index = NearestNeighbours::new(String::from(metric)).unwrap();
    index.add_vector(String::from("a"), bits(&[1.0, 2.0, 3.0])).unwrap();
    index.add_vector(String::from("b"), bits(&[7.0, 2.0, 9.0])).unwrap();
    index.add_vector(String::from("c"), bits(&[4.0, 2.1, 3.4])).unwrap();
    index.add_vector(String::from("d"), bits(&[0.9, 8.2, 4.6])).unwrap();
    index
}

#[test]
fn test_nearest_neighbours_new() {
    NearestNeighbours::new(String::from("cosine")).unwrap();
}

#[test]
fn test_nearest_neighbours_add_vector() {
    let mut index = NearestNeighbours::new(String::from("cosine")).unwrap();
    let new_vector = bits(&[1.0, 2.0]);
    index.add_vector(String::from("one"), new_vector).unwrap();
}

#[test]
fn test_nearest_neighbours_query_by_vector() {
    let mut index = NearestNeighbours::new(String::from("cosine")).unwrap();
    let new_vector = bits(&[1.0, 2.0]);
    index.add_vector(String::from("one"), new_vector).unwrap();
    let new_vector_2 = bits(&[9.0, 7.0]);
    index.add_vector(String::from("two"), new_vector_2).unwrap();
    let new_vector_3 = bits(&[1.0, 2.0]);
    let nn = index.query_by_vector(&new_vector_3, 1, distance).unwrap();
    assert_eq!(nn, vec!["one"]);
}

#[test]
fn test_integration() {
    fn create_populate_load_reload(metric: String) {
        let mut index = NearestNeighbours::new(metric.clone()).unwrap();

        let a = bits(&[1.0, 2.0, 3.0]);
        let b = bits(&[7.0, 2.0, 9.0]);
        let c = bits(&[4.0, 2.1, 3.4]);
        let d = bits(&[0.9, 8.2, 4.6]);

        let e = b.clone();
        let e_two = e.clone();

        index.add_vector(String::from("a"), a).unwrap();
        index.add_vector(String::from("b"), b).unwrap();
        index.add_vector(String::from("c"), c).unwrap();
        index.add_vector(String::from("d"), d).unwrap();

        let nn_one = index.query_by_vector(&e, 1, distance).unwrap();
        assert_eq!(&nn_one, &vec![String::from("b")]);

        let mut saved: Vec<(String, Vec<u64>)> = Vec::new();
        for i in 0..index.len() {
            saved.push((index.id_at(i).unwrap().clone(), index.vector_at(i).unwrap().clone()));
        }
        let new_index =
            NearestNeighbours::from_entries(String::from(index.metric().name()), saved).unwrap();

        let nn_two = new_index.query_by_vector(&e_two, 1, distance).unwrap();
        assert_eq!(nn_one, nn_two);
    }

    let metrics = vec![String::from("euclidean"), String::from("cosine"), String::from("manhattan")];

    for metric in metrics {
        create_populate_load_reload(metric);
    }
}

#[test]
fn new_store_is_empty_and_keeps_its_metric() {
    for (name, metric) in
        [("cosine", Metric::Cosine), ("euclidean", Metric::Euclidean), ("manhattan", Metric::Manhattan)]
    {
        let index = NearestNeighbours::new(String::from(name)).unwrap();
        assert_eq!(index.len(), 0);
        assert_eq!(index.metric(), metric);
        assert_eq!(index.id_at(0), None);
        assert_eq!(index.vector_at(0), None);
        assert_eq!(index.get("a"), None);
    }
}

#[test]
fn add_vector_stores_under_the_identifier() {
    let mut index = NearestNeighbours::new(String::from("manhattan")).unwrap();
    index.add_vector(String::from("one"), bits(&[1.0, 2.0])).unwrap();
    index.add_vector(String::from("two"), bits(&[9.0, 7.0])).unwrap();
    assert_eq!(index.len(), 2);
    assert_eq!(index.metric(), Metric::Manhattan);
    assert_eq!(index.get("one"), Some(&bits(&[1.0, 2.0])));
    assert_eq!(index.get("two"), Some(&bits(&[9.0, 7.0])));
    assert_eq!(index.get("three"), None);
    assert_eq!(index.get("on"), None);
    assert_eq!(index.id_at(0), Some(&String::from("one")));
    assert_eq!(index.id_at(1), Some(&String::from("two")));
    assert_eq!(index.id_at(2), None);
    assert_eq!(index.vector_at(0), Some(&bits(&[1.0, 2.0])));
    assert_eq!(index.vector_at(1), Some(&bits(&[9.0, 7.0])));
    assert_eq!(index.vector_at(2), None);
}

#[test]
fn storing_twice_keeps_the_second_vector() {
    let mut index = NearestNeighbours::new(String::from("euclidean")).unwrap();
    index.add_vector(String::from("x"), bits(&[1.0, 2.0, 3.0])).unwrap();
    index.add_vector(String::from("y"), bits(&[0.0, 0.0, 0.0])).unwrap();
    index.add_vector(String::from("x"), bits(&[4.0, 5.0, 6.0])).unwrap();
    assert_eq!(index.len(), 2);
    assert_eq!(index.get("x"), Some(&bits(&[4.0, 5.0, 6.0])));
    assert_eq!(index.get("y"), Some(&bits(&[0.0, 0.0, 0.0])));
    assert_eq!(index.id_at(0), Some(&String::from("x")));
    assert_eq!(index.id_at(1), Some(&String::from("y")));
    let nearest = index.query_by_vector(&bits(&[4.0, 5.0, 6.0]), 2, distance).unwrap();
    assert_eq!(nearest, names(&["x", "y"]));
    let nearest = index.query_by_vector(&bits(&[1.0, 2.0, 3.0]), 1, distance).unwrap();
    assert_eq!(nearest, names(&["y"]));
}

#[test]
fn add_vector_takes_vectors_of_any_length() {
    let mut index = NearestNeighbours::new(String::from("cosine")).unwrap();
    index.add_vector(String::from("two"), bits(&[1.0, 2.0])).unwrap();
    index.add_vector(String::from("three"), bits(&[1.0, 2.0, 3.0])).unwrap();
    index.add_vector(String::from("none"), bits(&[])).unwrap();
    assert_eq!(index.len(), 3);
    assert!(!index.has_dimension(2));
    assert!(!index.has_dimension(3));
    assert!(!index.has_dimension(0));
}

#[test]
fn has_dimension_tells_whether_a_query_can_be_compared() {
    let index = four_vectors("euclidean");
    assert!(index.has_dimension(3));
    assert!(!index.has_dimension(2));
    assert!(!index.has_dimension(4));
    let empty = NearestNeighbours::new(String::from("euclidean")).unwrap();
    assert!(empty.has_dimension(0));
    assert!(empty.has_dimension(7));
}

#[test]
fn query_returns_the_stored_vector_itself_first() {
    for metric in ["euclidean", "cosine", "manhattan"] {
        let index = four_vectors(metric);
        for i in 0..index.len() {
            let id = index.id_at(i).unwrap().clone();
            let query = index.vector_at(i).unwrap().clone();
            let found = index.query_by_vector(&query, 1, distance).unwrap();
            assert_eq!(found, vec![id]);
        }
    }
}

#[test]
fn query_orders_by_distance() {
    let index = four_vectors("euclidean");
    // Distances to b: a 8.49, b 0, c 6.35, d 9.78.
    let found = index.query_by_vector(&bits(&[7.0, 2.0, 9.0]), 4, distance).unwrap();
    assert_eq!(found, names(&["b", "c", "a", "d"]));
    let found = index.query_by_vector(&bits(&[7.0, 2.0, 9.0]), 3, distance).unwrap();
    assert_eq!(found, names(&["b", "c", "a"]));
    let found = index.query_by_vector(&bits(&[7.0, 2.0, 9.0]), 2, distance).unwrap();
    assert_eq!(found, names(&["b", "c"]));

    let index = four_vectors("manhattan");
    // Distances to a: a 0, b 12, c 3.5, d 7.9.
    let found = index.query_by_vector(&bits(&[1.0, 2.0, 3.0]), 4, distance).unwrap();
    assert_eq!(found, names(&["a", "c", "d", "b"]));
}

#[test]
fn query_for_more_than_is_stored_returns_every_identifier() {
    let index = four_vectors("euclidean");
    let found = index.query_by_vector(&bits(&[7.0, 2.0, 9.0]), 5, distance).unwrap();
    assert_eq!(found, names(&["b", "c", "a", "d"]));
    let found = index.query_by_vector(&bits(&[7.0, 2.0, 9.0]), usize::MAX, distance).unwrap();
    assert_eq!(found, names(&["b", "c", "a", "d"]));
}

#[test]
fn query_for_no_neighbours_or_in_an_empty_store_returns_nothing() {
    let index = four_vectors("cosine");
    let found = index.query_by_vector(&bits(&[7.0, 2.0, 9.0]), 0, distance).unwrap();
    assert_eq!(found, Vec::<String>::new());
    let empty = NearestNeighbours::new(String::from("cosine")).unwrap();
    let found = empty.query_by_vector(&bits(&[7.0, 2.0, 9.0]), 3, distance).unwrap();
    assert_eq!(found, Vec::<String>::new());
    assert_eq!(empty.nearest(&vec![], 3), Vec::<String>::new());
}

#[test]
fn query_calls_the_metric_of_the_store() {
    for (name, metric) in
        [("cosine", Metric::Cosine), ("euclidean", Metric::Euclidean), ("manhattan", Metric::Manhattan)]
    {
        let index = four_vectors(name);
        let query = bits(&[1.0, 2.0, 3.0]);
        let seen = std::cell::RefCell::new(Vec::new());
        index
            .query_by_vector(&query, 2, |m: Metric, a: &Vec<u64>, b: &Vec<u64>| {
                seen.borrow_mut().push((m, a.clone(), b.clone()));
                0
            })
            .unwrap();
        let seen = seen.into_inner();
        assert_eq!(seen.len(), 4);
        for (i, call) in seen.iter().enumerate() {
            assert_eq!(call.0, metric);
            assert_eq!(&call.1, index.vector_at(i).unwrap());
            assert_eq!(call.2, query);
        }
    }
}

#[test]
fn nearest_ranks_by_the_given_distances() {
    let index = four_vectors("euclidean");
    let found = index.nearest(&bits(&[3.0, 0.5, 2.0, 1.5]), 4);
    assert_eq!(found, names(&["b", "d", "c", "a"]));
    let found = index.nearest(&bits(&[3.0, 0.5, 2.0, 1.5]), 2);
    assert_eq!(found, names(&["b", "d"]));
    // 1.5 has the larger significand and is still the smaller distance.
    let found = index.nearest(&bits(&[2.0, 1.5, 1024.0, 1e-310]), 3);
    assert_eq!(found, names(&["d", "b", "a"]));
}

#[test]
fn equal_distances_are_ranked_by_identifier() {
    let mut index = NearestNeighbours::new(String::from("manhattan")).unwrap();
    index.add_vector(String::from("pear"), bits(&[1.0])).unwrap();
    index.add_vector(String::from("apple"), bits(&[3.0])).unwrap();
    index.add_vector(String::from("fig"), bits(&[2.0])).unwrap();
    index.add_vector(String::from("apples"), bits(&[1.0])).unwrap();
    // apple and pear, and apples, are all at distance 1 from 2; fig is at 0.
    let found = index.query_by_vector(&bits(&[2.0]), 4, distance).unwrap();
    assert_eq!(found, names(&["fig", "apple", "apples", "pear"]));
    let found = index.query_by_vector(&bits(&[2.0]), 2, distance).unwrap();
    assert_eq!(found, names(&["fig", "apple"]));
    let found = index.nearest(&bits(&[0.0, 0.0, 0.0, 0.0]), 3);
    assert_eq!(found, names(&["apple", "apples", "fig"]));
}

#[test]
fn answer_does_not_depend_on_the_order_of_storing() {
    let entries = vec![
        (String::from("pear"), bits(&[1.0, 0.0])),
        (String::from("apple"), bits(&[3.0, 0.0])),
        (String::from("fig"), bits(&[2.0, 5.0])),
        (String::from("apples"), bits(&[1.0, 0.0])),
        (String::from("plum"), bits(&[-4.0, 2.5])),
    ];
    let mut reversed = entries.clone();
    reversed.reverse();
    for metric in ["euclidean", "cosine", "manhattan"] {
        let one = NearestNeighbours::from_entries(String::from(metric), entries.clone()).unwrap();
        let two = NearestNeighbours::from_entries(String::from(metric), reversed.clone()).unwrap();
        assert_eq!(one.id_at(0), Some(&String::from("pear")));
        assert_eq!(two.id_at(0), Some(&String::from("plum")));
        for query in [bits(&[2.0, 0.0]), bits(&[1.0, 0.0]), bits(&[0.5, 4.0])] {
            for k in 0..7 {
                assert_eq!(
                    one.query_by_vector(&query, k, distance).unwrap(),
                    two.query_by_vector(&query, k, distance).unwrap()
                );
            }
        }
    }
}

#[test]
fn from_entries_stores_in_order_and_keeps_the_last_vector() {
    let entries = vec![
        (String::from("a"), bits(&[1.0])),
        (String::from("b"), bits(&[2.0])),
        (String::from("a"), bits(&[3.0])),
    ];
    let index = NearestNeighbours::from_entries(String::from("cosine"), entries).unwrap();
    assert_eq!(index.len(), 2);
    assert_eq!(index.metric(), Metric::Cosine);
    assert_eq!(index.id_at(0), Some(&String::from("a")));
    assert_eq!(index.id_at(1), Some(&String::from("b")));
    assert_eq!(index.get("a"), Some(&bits(&[3.0])));
    assert_eq!(index.get("b"), Some(&bits(&[2.0])));
}

#[test]
fn distances_used_in_these_tests() {
    let a = bits(&[1.0, 2.0, 3.0]);
    let b = bits(&[4.0, 2.0, 7.0]);
    assert_eq!(f64::from_bits(distance(Metric::Cosine, &a, &a)), 0.0);
    assert_eq!(f64::from_bits(distance(Metric::Cosine, &a, &b)), 0.0669402944727091);
    assert_eq!(f64::from_bits(distance(Metric::Manhattan, &a, &a)), 0.0);
    assert_eq!(f64::from_bits(distance(Metric::Manhattan, &a, &b)), 7.0);
    assert_eq!(f64::from_bits(distance(Metric::Euclidean, &a, &a)), 0.0);
    assert_eq!(f64::from_bits(distance(Metric::Euclidean, &a, &b)), 5.0);
    for metric in [Metric::Cosine, Metric::Euclidean, Metric::Manhattan] {
        assert_eq!(distance(metric, &a, &b), distance(metric, &b, &a));
    }
}
