use als_recommender::evaluation::Epr;
use als_recommender::db::{ClientRow, ProductRow};
use als_recommender::matrix::{Interaction, InteractionMatrix};
use als_recommender::modelserver::{
    assemble_recommendation, recommendation_limit, watch_decision, MetadataModel, ModelServer,
    StartupAction, WatchAction, WatchKind, DEBOUNCE_MILLIS, RELOAD_MAX_ITERATIONS,
    STARTUP_MAX_ITERATIONS,
};
use als_recommender::path::decode_path_param;
use als_recommender::scalar::Scalar;
use als_recommender::training::{Hyperparameters, JSONData};

fn number(x: f64) -> Scalar {
    Scalar::from_bits(x.to_bits())
}

fn order(client: &str, product: &str, quantity: f64) -> Interaction {
    Interaction { client_id: client.to_string(), product_id: product.to_string(), quantity: number(quantity) }
}

fn rows_of_width(rows: usize, width: usize) -> Vec<Vec<Scalar>> {
    (0..rows).map(|r| (0..width).map(|c| number((r + c) as f64)).collect()).collect()
}

fn positions(ids: &[&str]) -> Vec<(String, usize)> {
    ids.iter().enumerate().map(|(i, id)| (id.to_string(), i)).collect()
}

// Two clients, three products, four factors.
fn valid_artifact() -> (JSONData, Vec<Vec<i64>>) {
    let rows = vec![
        order("ann b", "p1", 2.0),
        order("ann b", "p3", 1.0),
        order("bob", "p2", 3.0),
    ];
    let data = JSONData {
        hyperparameters: Hyperparameters {
            num_factors: 4,
            regularization: number(0.01),
            confidence_multiplier: number(40.0),
        },
        matrix: InteractionMatrix::from_rows(&rows, &Vec::new()).unwrap(),
        product_factors: rows_of_width(3, 4),
        client_factors: rows_of_width(2, 4),
        client_index: positions(&["ann b", "bob"]),
        product_index: positions(&["p1", "p2", "p3"]),
    };
    (data, vec![vec![30, 10, 20], vec![5, 6, 7]])
}

fn client(id: &str) -> ClientRow {
    ClientRow { id: id.to_string(), name: format!("name of {}", id), email: format!("{}@example.org", id) }
}

fn product(id: &str, price: f64) -> ProductRow {
    ProductRow { id: id.to_string(), description: format!("product {}", id), price: number(price) }
}

#[test]
fn server_without_artifact_trains_a_first_model() {
    let mut server = ModelServer::new("./data/hyperparameters.json");
    assert_eq!(server.hyperparameters_file(), "./data/hyperparameters.json");
    assert_eq!(server.initialize(None), StartupAction::TrainInitial);
    assert!(!server.has_model());
    assert!(server.predict("ann b", Some(3)).is_none());
    assert_eq!(
        server.get_metadata(),
        MetadataModel {
            num_factors: 0,
            regularization: number(0.0),
            confidence_multiplier: number(0.0),
            epr: Epr { rank_sum: 0, pairs: 1, products: 1 },
        }
    );
}

#[test]
fn server_with_artifact_serves_it() {
    let mut server = ModelServer::new("./data/hyperparameters.json");
    assert_eq!(server.initialize(Some(valid_artifact())), StartupAction::Serve);
    assert!(server.has_model());
    assert_eq!(server.get_metadata().num_factors, 4);
}

#[test]
fn server_with_invalid_artifact_at_startup_trains() {
    let mut server = ModelServer::new("./data/hyperparameters.json");
    let (data, _) = valid_artifact();
    assert_eq!(server.initialize(Some((data, vec![vec![1, 2, 3]]))), StartupAction::TrainInitial);
    assert!(!server.has_model());
}

#[test]
fn artifact_reload_fills_the_slot() {
    let mut server = ModelServer::new("./data/hyperparameters.json");
    server.initialize(None);
    assert!(server.reload(Some(valid_artifact())));
    let meta = server.get_metadata();
    assert_eq!(meta.num_factors, 4);
    assert_eq!(f64::from_bits(meta.regularization.to_bits()), 0.01);
    assert_eq!(f64::from_bits(meta.confidence_multiplier.to_bits()), 40.0);
    // ann b: p1 rank 0, p3 rank 1; bob: p2 rank 1.
    assert_eq!(meta.epr, Epr { rank_sum: 2, pairs: 3, products: 3 });
    let ids = server.predict("ann b", Some(3)).unwrap();
    assert_eq!(ids, vec!["p1".to_string(), "p3".to_string(), "p2".to_string()]);
    assert_eq!(server.predict("bob", None).unwrap(), vec!["p3".to_string()]);
    assert_eq!(server.predict("nobody", Some(3)).unwrap(), Vec::<String>::new());
}

#[test]
fn failed_reload_keeps_the_live_model() {
    let mut server = ModelServer::new("./data/hyperparameters.json");
    assert!(server.reload(Some(valid_artifact())));
    assert!(!server.reload(None));
    let (mut broken, scores) = valid_artifact();
    broken.client_factors = rows_of_width(2, 3);
    assert!(!server.reload(Some((broken, scores))));
    assert_eq!(server.get_metadata().num_factors, 4);
    assert_eq!(server.predict("bob", Some(1)).unwrap(), vec!["p3".to_string()]);
}

#[test]
fn reload_replaces_the_model_whole() {
    let mut server = ModelServer::new("./data/hyperparameters.json");
    assert!(server.reload(Some(valid_artifact())));
    let (mut data, _) = valid_artifact();
    data.hyperparameters.num_factors = 2;
    data.client_factors = rows_of_width(2, 2);
    data.product_factors = rows_of_width(3, 2);
    assert!(server.reload(Some((data, vec![vec![1, 2, 3], vec![9, 8, 7]]))));
    assert_eq!(server.get_metadata().num_factors, 2);
    assert_eq!(server.predict("ann b", Some(1)).unwrap(), vec!["p3".to_string()]);
    assert_eq!(server.predict("bob", Some(1)).unwrap(), vec!["p1".to_string()]);
}

#[test]
fn watcher_reloads_on_create_and_modify_of_the_artifact() {
    let reload = WatchAction::Reload { debounce_millis: 500 };
    assert_eq!(DEBOUNCE_MILLIS, 500);
    assert_eq!(watch_decision(WatchKind::Create, true), reload);
    assert_eq!(watch_decision(WatchKind::Modify, true), reload);
    assert_eq!(watch_decision(WatchKind::Other, true), WatchAction::Ignore);
    assert_eq!(watch_decision(WatchKind::Create, false), WatchAction::Ignore);
    assert_eq!(watch_decision(WatchKind::Modify, false), WatchAction::Ignore);
    assert_eq!(watch_decision(WatchKind::Other, false), WatchAction::Ignore);
}

#[test]
fn recommendation_drops_products_that_were_not_found() {
    let lookups = vec![Some(product("p1", 9.5)), None, Some(product("p3", 1.25)), None];
    let rec = assemble_recommendation(Some(client("ann")), lookups).unwrap();
    assert_eq!(rec.client.id, "ann");
    let ids: Vec<&str> = rec.products.iter().map(|p| p.id.as_str()).collect();
    assert_eq!(ids, vec!["p1", "p3"]);
    assert_eq!(f64::from_bits(rec.products[1].price.to_bits()), 1.25);
}

#[test]
fn recommendation_without_the_client_is_not_found() {
    assert!(assemble_recommendation(None, vec![Some(product("p1", 9.5))]).is_none());
}

#[test]
fn recommendation_may_hold_no_products() {
    let rec = assemble_recommendation(Some(client("ann")), Vec::new()).unwrap();
    assert!(rec.products.is_empty());
}

#[test]
fn limit_must_be_at_least_one() {
    assert_eq!(recommendation_limit(3), Some(3));
    assert_eq!(recommendation_limit(1), Some(1));
    assert_eq!(recommendation_limit(0), None);
    assert_eq!(recommendation_limit(-4), None);
}

#[test]
fn path_parameters_are_percent_decoded() {
    assert_eq!(decode_path_param("ann%20b"), "ann b");
    assert_eq!(decode_path_param("plain"), "plain");
    assert_eq!(decode_path_param("a%2Fb%3f"), "a/b?");
    assert_eq!(decode_path_param("100%"), "100%");
    assert_eq!(decode_path_param("caf%C3%A9"), "café");
}

#[test]
fn request_decodes_the_client_before_it_asks_the_model() {
    let mut server = ModelServer::new("./data/hyperparameters.json");
    assert!(server.recommend_for_request("ann%20b", Some(2)).is_none());
    assert!(server.reload(Some(valid_artifact())));
    assert_eq!(
        server.recommend_for_request("ann%20b", Some(2)).unwrap(),
        vec!["p1".to_string(), "p3".to_string()]
    );
    assert_eq!(server.recommend_for_request("ann%20b", None).unwrap(), vec!["p1".to_string()]);
    assert_eq!(server.recommend_for_request("ann b", Some(5)).unwrap().len(), 3);
    assert!(server.recommend_for_request("ann%20b", Some(0)).is_none());
    assert_eq!(server.recommend_for_request("ann%2520b", Some(2)).unwrap(), Vec::<String>::new());
}

#[test]
fn loaded_model_records_its_rounds_and_tolerance() {
    let mut server = ModelServer::new("./data/hyperparameters.json");
    assert!(server.live_model().is_none());
    assert_eq!(server.initialize(Some(valid_artifact())), StartupAction::Serve);
    assert_eq!(STARTUP_MAX_ITERATIONS, 100);
    assert_eq!(server.live_model().unwrap().max_iterations(), 100);
    assert_eq!(server.live_model().unwrap().tolerance().to_bits(), 1.0e-4f64.to_bits());
    assert!(server.reload(Some(valid_artifact())));
    assert_eq!(RELOAD_MAX_ITERATIONS, 200);
    assert_eq!(server.live_model().unwrap().max_iterations(), 200);
    assert_eq!(server.live_model().unwrap().tolerance().to_bits(), 1.0e-4f64.to_bits());
}

#[test]
fn server_tells_known_clients_from_unknown_ones() {
    let mut server = ModelServer::new("./data/hyperparameters.json");
    assert!(!server.client_known("bob"));
    assert!(server.reload(Some(valid_artifact())));
    assert!(server.client_known("bob"));
    assert!(server.client_known("ann b"));
    assert!(!server.client_known("ann%20b"));
    assert!(!server.client_known("nobody"));
}
