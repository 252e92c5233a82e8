use als_recommender::als::{positive_places, RoundVerdict, ALS};
use als_recommender::config::{excluded_clients, is_blank};
use als_recommender::matrix::{Interaction, InteractionMatrix};
use als_recommender::scalar::Scalar;
use als_recommender::training::TrainingTurn;

fn carried(x: f64) -> Scalar {
    Scalar::from_bits(x.to_bits())
}

fn model_with(tolerance: f64, max_iterations: usize) -> ALS {
    let rows = vec![Interaction {
        client_id: "c1".to_string(),
        product_id: "p1".to_string(),
        quantity: carried(1.0),
    }];
    let matrix = InteractionMatrix::from_rows(&rows, &Vec::new()).unwrap();
    ALS::new(2, carried(0.1), carried(20.0), carried(tolerance), max_iterations, matrix)
}

#[test]
fn excluded_list_is_split_at_commas() {
    assert_eq!(excluded_clients("MOSTR,A12,B7"), vec!["MOSTR", "A12", "B7"]);
}

#[test]
fn excluded_list_loses_the_white_space_around_its_items() {
    assert_eq!(excluded_clients("  MOSTR , A 12,\tB7\n"), vec!["MOSTR", "A 12", "B7"]);
    assert_eq!(excluded_clients("one"), vec!["one"]);
    assert_eq!(excluded_clients("\u{a0}ñandú\u{3000}, 日本\u{2003}"), vec!["ñandú", "日本"]);
}

#[test]
fn excluded_list_keeps_empty_items() {
    assert_eq!(excluded_clients(""), vec![""]);
    assert_eq!(excluded_clients(" , ,"), vec!["", "", ""]);
    assert_eq!(excluded_clients("a,,b"), vec!["a", "", "b"]);
    assert_eq!(excluded_clients("a,"), vec!["a", ""]);
}

#[test]
fn excluded_list_reads_as_split_and_trim_do() {
    for list in ["", "a", " a , b ", ",", "x,,y ,\t z\r\n", "\u{2028}q\u{85},  ", "é , ü,", ",,,"] {
        let expected: Vec<String> = list.split(',').map(|s| s.trim().to_string()).collect();
        assert_eq!(excluded_clients(list), expected);
    }
}

#[test]
fn blanks_are_the_white_space_characters() {
    for v in 0..=0x10FFFFu32 {
        if let Some(c) = char::from_u32(v) {
            assert_eq!(is_blank(c), c.is_whitespace());
        }
    }
}

#[test]
fn positive_places_are_those_above_zero() {
    let weights: Vec<Scalar> =
        [1.0, 0.0, 41.0, -3.0, -0.0, f64::NAN, 1.0e-300, f64::INFINITY].iter().map(|x| carried(*x)).collect();
    assert_eq!(positive_places(&weights), vec![0, 2, 6, 7]);
    assert_eq!(positive_places(&Vec::new()), Vec::<usize>::new());
    assert_eq!(positive_places(&vec![carried(0.0), carried(-1.0)]), Vec::<usize>::new());
}

#[test]
fn positive_is_greater_than_zero() {
    for x in [1.0, 2.5e-320, f64::MAX, f64::INFINITY] {
        assert!(carried(x).is_positive());
    }
    for x in [0.0, -0.0, -1.0, f64::NEG_INFINITY, f64::NAN] {
        assert!(!carried(x).is_positive());
    }
}

#[test]
fn training_goes_on_until_it_converges_or_runs_out() {
    let model = model_with(1.0e-4, 50);
    assert_eq!(model.after_round(0, carried(f64::INFINITY), carried(f64::INFINITY)), RoundVerdict::Continue);
    assert_eq!(model.after_round(3, carried(0.5), carried(1.0e-9)), RoundVerdict::Continue);
    assert_eq!(model.after_round(3, carried(1.0e-5), carried(1.0e-9)), RoundVerdict::Converged);
    assert_eq!(model.after_round(3, carried(1.0e-4), carried(1.0e-9)), RoundVerdict::Continue);
    assert_eq!(model.after_round(50, carried(0.5), carried(0.5)), RoundVerdict::Exhausted);
    assert_eq!(model.after_round(50, carried(0.0), carried(0.0)), RoundVerdict::Converged);
    assert_eq!(model.after_round(3, carried(f64::NAN), carried(0.0)), RoundVerdict::NumericError);
    assert_eq!(model.after_round(3, carried(0.0), carried(f64::NAN)), RoundVerdict::NumericError);
}

#[test]
fn training_with_no_rounds_allowed_stops_at_once() {
    let model = model_with(1.0e-4, 0);
    assert_eq!(model.after_round(0, carried(f64::INFINITY), carried(f64::INFINITY)), RoundVerdict::Exhausted);
}

#[test]
fn only_one_training_run_is_in_flight() {
    let mut turn = TrainingTurn::new();
    assert!(turn.try_begin());
    assert!(!turn.try_begin());
    turn.finish();
    assert!(turn.try_begin());
}
