use als_recommender::als::{ModelError, ALS};
use als_recommender::evaluation::Epr;
use als_recommender::matrix::{Interaction, InteractionMatrix};
use als_recommender::scalar::Scalar;
use als_recommender::training::{
    default_grid, find_best_als_model, generate_hyperparameter_combinations, load_model,
    select_best, Hyperparameters,
    JSONData, SearchRun, SEARCH_MAX_ITERATIONS, TOLERANCE_BITS,
};

fn value(x: f64) -> Scalar {
    Scalar::from_bits(x.to_bits())
}

// The fraction `thousandths / 1000`.
fn rank(thousandths: u128) -> Option<Epr> {
    Some(Epr { rank_sum: thousandths, pairs: 100, products: 10 })
}

fn shown(x: Scalar) -> f64 {
    f64::from_bits(x.to_bits())
}

fn sale(client: &str, product: &str, quantity: f64) -> Interaction {
    Interaction { client_id: client.to_string(), product_id: product.to_string(), quantity: value(quantity) }
}

fn trivial_matrix() -> InteractionMatrix {
    let rows = vec![sale("c1", "p1", 2.0), sale("c1", "p2", 1.0), sale("c2", "p1", 3.0)];
    InteractionMatrix::from_rows(&rows, &Vec::new()).unwrap()
}

fn numbered_ids(ids: &[&str]) -> Vec<(String, usize)> {
    ids.iter().enumerate().map(|(i, id)| (id.to_string(), i)).collect()
}

fn table(rows: usize, width: usize, step: f64) -> Vec<Vec<Scalar>> {
    (0..rows).map(|r| (0..width).map(|c| value((r * width + c) as f64 * step)).collect()).collect()
}

fn artifact(num_factors: usize) -> JSONData {
    JSONData {
        hyperparameters: Hyperparameters {
            num_factors,
            regularization: value(0.1),
            confidence_multiplier: value(20.0),
        },
        matrix: trivial_matrix(),
        product_factors: table(2, num_factors, 0.5),
        client_factors: table(2, num_factors, 0.25),
        client_index: numbered_ids(&["c1", "c2"]),
        product_index: numbered_ids(&["p1", "p2"]),
    }
}

#[test]
fn default_grid_has_every_combination() {
    let grid = default_grid();
    assert_eq!(grid.len(), 24);
    let mut expected = Vec::new();
    for k in [20usize, 50, 100, 200] {
        for l in [0.01f64, 0.1] {
            for a in [20.0f64, 40.0, 60.0] {
                expected.push((k, l, a));
            }
        }
    }
    let got: Vec<(usize, f64, f64)> = grid
        .iter()
        .map(|h| (h.num_factors, shown(h.regularization), shown(h.confidence_multiplier)))
        .collect();
    assert_eq!(got, expected);
}

#[test]
fn grid_varies_the_last_value_fastest() {
    let grid = generate_hyperparameter_combinations(
        &[2, 4],
        &[value(0.01)],
        &[value(20.0), value(40.0)],
    );
    let got: Vec<(usize, f64, f64)> = grid
        .iter()
        .map(|h| (h.num_factors, shown(h.regularization), shown(h.confidence_multiplier)))
        .collect();
    assert_eq!(got, vec![(2, 0.01, 20.0), (2, 0.01, 40.0), (4, 0.01, 20.0), (4, 0.01, 40.0)]);
}

#[test]
fn grid_of_an_empty_list_is_empty() {
    let grid = generate_hyperparameter_combinations(&[2, 4], &[], &[value(20.0)]);
    assert!(grid.is_empty());
}

#[test]
fn training_constants_are_the_documented_numbers() {
    assert_eq!(TOLERANCE_BITS, 1.0e-4f64.to_bits());
    assert_eq!(SEARCH_MAX_ITERATIONS, 200);
}

#[test]
fn select_best_takes_the_lowest_rank() {
    let outcomes = vec![rank(400), rank(250), rank(300)];
    assert_eq!(select_best(&outcomes), Some(1));
}

#[test]
fn select_best_takes_the_first_of_equal_candidates() {
    let same = Some(Epr { rank_sum: 1, pairs: 2, products: 2 });
    let outcomes = vec![rank(500), rank(250), None, same, rank(250)];
    assert_eq!(select_best(&outcomes), Some(1));
}

#[test]
fn select_best_compares_fractions_exactly() {
    let big = u64::MAX;
    let low = Some(Epr { rank_sum: (big as u128) * (big as u128) - 2, pairs: big, products: big });
    let high = Some(Epr { rank_sum: (big as u128) * (big as u128) - 1, pairs: big, products: big });
    assert_eq!(select_best(&vec![high, low]), Some(1));
    assert_eq!(select_best(&vec![low, high]), Some(0));
    let third = Some(Epr { rank_sum: 1, pairs: 3, products: 1 });
    let nearly = Some(Epr { rank_sum: 333_333_333_333, pairs: 1_000_000, products: 1_000_000 });
    assert_eq!(select_best(&vec![third, nearly]), Some(1));
}

#[test]
fn select_best_drops_candidates_without_an_evaluation() {
    let no_pairs = Some(Epr { rank_sum: 0, pairs: 0, products: 5 });
    let no_products = Some(Epr { rank_sum: 0, pairs: 5, products: 0 });
    let outcomes = vec![None, no_pairs, rank(750), no_products, None];
    assert_eq!(select_best(&outcomes), Some(2));
}

#[test]
fn select_best_finds_no_model_without_evaluations() {
    assert_eq!(select_best(&vec![None, Some(Epr { rank_sum: 0, pairs: 0, products: 0 })]), None);
    assert_eq!(select_best(&Vec::new()), None);
}

// What a training with `width` factors hands in for the small matrix, with
// the given scores of the two products for the two clients.
fn handed_in(width: usize, scores: Vec<Vec<i64>>) -> Option<(Vec<Vec<Scalar>>, Vec<Vec<Scalar>>, Vec<Vec<i64>>)> {
    Some((table(2, width, 0.25), table(2, width, 0.5), scores))
}

// Ranks 0, 1, 1 for the three interactions: the fraction 2/6.
fn middling() -> Vec<Vec<i64>> {
    vec![vec![5, 3], vec![1, 9]]
}

// Ranks 0, 1, 0: the fraction 1/6.
fn better() -> Vec<Vec<i64>> {
    vec![vec![5, 3], vec![9, 1]]
}

fn small_rows() -> Vec<Interaction> {
    vec![sale("c1", "p1", 2.0), sale("c1", "p2", 1.0), sale("c2", "p1", 3.0)]
}

fn two_point_run() -> SearchRun {
    let grid = generate_hyperparameter_combinations(&[2, 4], &[value(0.1)], &[value(20.0)]);
    SearchRun::new(grid, small_rows(), Vec::new())
}

#[test]
fn search_picks_the_candidate_with_the_lower_rank() {
    let mut run = two_point_run();
    let first = run.begin_candidate(false).unwrap();
    let second = run.begin_candidate(false).unwrap();
    assert_eq!((first.0, first.1.num_factors), (0, 2));
    assert_eq!((second.0, second.1.num_factors), (1, 4));
    assert!(run.begin_candidate(false).is_none());
    assert_eq!(run.best(), None);
    assert_eq!(run.complete(1, handed_in(4, better())), Some(1));
    assert_eq!(run.complete(0, handed_in(2, middling())), Some(2));
    assert_eq!(run.outcome(0), Some(Epr { rank_sum: 2, pairs: 3, products: 2 }));
    assert_eq!(run.outcome(1), Some(Epr { rank_sum: 1, pairs: 3, products: 2 }));
    assert_eq!(run.outcome(2), None);
    assert_eq!(run.winner(), Some(1));
    assert_eq!(run.best().unwrap().num_factors, 4);
}

#[test]
fn winner_comes_with_its_own_artifact() {
    let mut run = two_point_run();
    run.begin_candidate(false);
    run.begin_candidate(false);
    assert_eq!(run.complete(0, handed_in(2, middling())), Some(1));
    assert_eq!(run.complete(1, handed_in(4, better())), Some(2));
    let (winner, data) = run.into_winner().unwrap();
    assert_eq!(winner.num_factors, 4);
    assert_eq!(data.hyperparameters, winner);
    assert_eq!(data.client_factors, table(2, 4, 0.25));
    assert_eq!(data.product_factors, table(2, 4, 0.5));
    assert!(data.client_factors.iter().chain(data.product_factors.iter()).all(|row| row.len() == 4));
    assert_eq!(data.client_index, numbered_ids(&["c1", "c2"]));
    assert_eq!(data.product_index, numbered_ids(&["p1", "p2"]));
    assert_eq!(data.matrix.entries(), 3);
    assert_eq!(data.matrix.get("c2", "p1"), Some(value(3.0)));
}

#[test]
fn winner_keeps_its_artifact_when_a_worse_candidate_finishes_later() {
    let mut run = two_point_run();
    run.begin_candidate(false);
    run.begin_candidate(false);
    assert_eq!(run.complete(0, handed_in(2, better())), Some(1));
    assert_eq!(run.complete(1, handed_in(4, middling())), Some(2));
    let (winner, data) = run.into_winner().unwrap();
    assert_eq!(winner.num_factors, 2);
    assert_eq!(data.hyperparameters.num_factors, 2);
    assert_eq!(data.client_factors, table(2, 2, 0.25));
}

#[test]
fn first_of_equal_candidates_wins_whichever_finishes_first() {
    let mut run = two_point_run();
    run.begin_candidate(false);
    run.begin_candidate(false);
    assert_eq!(run.complete(1, handed_in(4, middling())), Some(1));
    assert_eq!(run.complete(0, handed_in(2, middling())), Some(2));
    let (winner, data) = run.into_winner().unwrap();
    assert_eq!(winner.num_factors, 2);
    assert_eq!(data.hyperparameters.num_factors, 2);
    assert!(data.client_factors.iter().all(|row| row.len() == 2));
}

#[test]
fn search_hands_out_nothing_after_cancellation() {
    let mut run = SearchRun::new(default_grid(), small_rows(), Vec::new());
    assert_eq!(run.begin_candidate(false).unwrap().0, 0);
    assert_eq!(run.begin_candidate(false).unwrap().0, 1);
    assert!(run.begin_candidate(true).is_none());
    assert!(run.begin_candidate(false).is_none());
    assert_eq!(run.complete(0, handed_in(20, middling())), Some(1));
    assert_eq!(run.complete(1, None), Some(2));
    assert_eq!(run.complete(2, handed_in(20, better())), None);
    assert_eq!(run.winner(), Some(0));
}

#[test]
fn search_cancelled_at_once_has_no_model() {
    let mut run = SearchRun::new(default_grid(), small_rows(), Vec::new());
    assert!(run.begin_candidate(true).is_none());
    assert_eq!(run.winner(), None);
    assert_eq!(run.best(), None);
    assert!(run.into_winner().is_none());
}

#[test]
fn search_records_each_candidate_once() {
    let mut run = SearchRun::new(default_grid(), small_rows(), Vec::new());
    run.begin_candidate(false);
    assert_eq!(run.complete(0, handed_in(20, middling())), Some(1));
    assert_eq!(run.complete(0, handed_in(20, better())), None);
    assert_eq!(run.complete(7, handed_in(20, better())), None);
    assert_eq!(run.winner(), Some(0));
    assert_eq!(run.outcome(0), Some(Epr { rank_sum: 2, pairs: 3, products: 2 }));
}

#[test]
fn search_drops_failed_candidates() {
    let mut run = two_point_run();
    run.begin_candidate(false);
    run.begin_candidate(false);
    assert_eq!(run.complete(0, None), Some(1));
    assert_eq!(run.winner(), None);
    assert_eq!(run.complete(1, handed_in(4, middling())), Some(2));
    assert_eq!(run.best().unwrap().num_factors, 4);
}

#[test]
fn search_drops_candidates_whose_factors_do_not_fit() {
    let mut run = two_point_run();
    run.begin_candidate(false);
    run.begin_candidate(false);
    assert_eq!(run.complete(0, handed_in(3, better())), Some(1));
    assert_eq!(run.outcome(0), None);
    assert_eq!(run.complete(1, handed_in(4, vec![vec![5, 3]])), Some(2));
    assert_eq!(run.outcome(1), None);
    assert!(run.into_winner().is_none());
}

#[test]
fn search_without_a_matrix_has_no_model() {
    let grid = generate_hyperparameter_combinations(&[2], &[value(0.1)], &[value(20.0)]);
    let mut run = SearchRun::new(grid, small_rows(), vec!["c1".to_string(), "c2".to_string()]);
    run.begin_candidate(false);
    assert_eq!(run.complete(0, handed_in(2, middling())), Some(1));
    assert_eq!(run.outcome(0), None);
    assert!(run.into_winner().is_none());
}

#[test]
fn artifact_loads_into_a_trained_model() {
    let model = load_model(artifact(4), vec![vec![5, 3], vec![1, 9]], 200).ok().unwrap();
    assert!(model.is_trained());
    assert_eq!(model.num_factors(), 4);
    assert_eq!(model.max_iterations(), 200);
    assert_eq!(model.tolerance().to_bits(), 1.0e-4f64.to_bits());
    assert_eq!(model.recommend("c2", Some(2)), vec!["p2".to_string(), "p1".to_string()]);
}

#[test]
fn artifact_with_the_wrong_factor_width_is_refused() {
    let mut data = artifact(4);
    data.hyperparameters.num_factors = 3;
    let loaded = load_model(data, vec![vec![5, 3], vec![1, 9]], 200);
    assert!(matches!(loaded, Err(ModelError::ClientFactors)));
}

#[test]
fn artifact_with_a_misaligned_index_is_refused() {
    let mut data = artifact(4);
    data.product_index = vec![("p1".to_string(), 1), ("p2".to_string(), 2)];
    let loaded = load_model(data, vec![vec![5, 3], vec![1, 9]], 200);
    assert!(matches!(loaded, Err(ModelError::ProductIndex)));
}

#[test]
fn artifact_round_trip_keeps_the_model() {
    let model = load_model(artifact(4), vec![vec![5, 3], vec![1, 9]], 200).ok().unwrap();
    let written = model.into_artifact().unwrap();
    let given = artifact(4);
    assert_eq!(written.hyperparameters, given.hyperparameters);
    assert_eq!(written.client_index, given.client_index);
    assert_eq!(written.product_index, given.product_index);
    assert_eq!(written.client_factors, given.client_factors);
    assert_eq!(written.product_factors, given.product_factors);
    assert_eq!(written.matrix.entries(), 3);
    assert_eq!(written.matrix.get("c2", "p1"), Some(value(3.0)));
    let again = load_model(written, vec![vec![5, 3], vec![1, 9]], 200).ok().unwrap();
    assert_eq!(again.num_factors(), 4);
    assert_eq!(again.client_index().unwrap().to_pairs(), given.client_index);
    assert_eq!(again.product_index().unwrap().to_pairs(), given.product_index);
    assert_eq!(again.client_factors().unwrap(), &given.client_factors);
    assert_eq!(again.product_factors().unwrap(), &given.product_factors);
}

#[test]
fn artifact_index_may_list_its_pairs_in_any_order() {
    let mut data = artifact(4);
    data.client_index = vec![("c2".to_string(), 1), ("c1".to_string(), 0)];
    let model = load_model(data, vec![vec![5, 3], vec![1, 9]], 200).ok().unwrap();
    assert_eq!(model.client_index().unwrap().to_pairs(), numbered_ids(&["c1", "c2"]));
}

#[test]
fn untrained_model_has_no_artifact() {
    let model = ALS::new(2, value(0.1), value(20.0), value(1.0e-4), 50, trivial_matrix());
    assert!(model.into_artifact().is_none());
}

#[test]
fn hyperparameter_selection() {
    let grid = generate_hyperparameter_combinations(&[2, 4], &[value(0.1)], &[value(20.0)]);
    let lower_first = vec![rank(200), rank(300)];
    assert_eq!(find_best_als_model(&grid, &lower_first).unwrap().num_factors, 2);
    let lower_second = vec![rank(300), rank(200)];
    assert_eq!(find_best_als_model(&grid, &lower_second).unwrap().num_factors, 4);
    let only_second = vec![None, rank(900)];
    assert_eq!(find_best_als_model(&grid, &only_second).unwrap().num_factors, 4);
    assert_eq!(find_best_als_model(&grid, &vec![None, None]), None);
}
