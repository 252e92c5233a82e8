use als_recommender::matrix::{Interaction, InteractionMatrix, MatrixError};
use als_recommender::scalar::Scalar;

fn bought(client: &str, product: &str, quantity: f64) -> Interaction {
    Interaction {
        client_id: client.to_string(),
        product_id: product.to_string(),
        quantity: Scalar::from_bits(quantity.to_bits()),
    }
}

fn quantity(m: &InteractionMatrix, client: &str, product: &str) -> Option<f64> {
    m.get(client, product).map(|q| f64::from_bits(q.to_bits()))
}

#[test]
fn builder_records_every_interaction() {
    let rows = vec![bought("c1", "p1", 2.0), bought("c1", "p2", 1.0), bought("c2", "p1", 3.0)];
    let m = InteractionMatrix::from_rows(&rows, &Vec::new()).unwrap();
    assert_eq!(m.len(), 2);
    assert_eq!(m.entries(), 3);
    assert_eq!(quantity(&m, "c1", "p1"), Some(2.0));
    assert_eq!(quantity(&m, "c1", "p2"), Some(1.0));
    assert_eq!(quantity(&m, "c2", "p1"), Some(3.0));
    assert_eq!(quantity(&m, "c2", "p2"), None);
    assert_eq!(quantity(&m, "c3", "p1"), None);
}

#[test]
fn builder_keeps_first_seen_order() {
    let rows = vec![
        bought("zed", "p9", 1.0),
        bought("amy", "p1", 1.0),
        bought("zed", "p1", 4.0),
        bought("amy", "p9", 2.0),
    ];
    let m = InteractionMatrix::from_rows(&rows, &Vec::new()).unwrap();
    assert_eq!(m.client_id(0), "zed");
    assert_eq!(m.client_id(1), "amy");
    assert_eq!(m.row_len(0), 2);
    assert_eq!(m.product_id(0, 0), "p9");
    assert_eq!(m.product_id(0, 1), "p1");
    assert_eq!(m.product_id(1, 0), "p1");
    assert_eq!(m.product_id(1, 1), "p9");
    assert_eq!(f64::from_bits(m.quantity_at(0, 1).to_bits()), 4.0);
}

#[test]
fn builder_replaces_a_repeated_pair() {
    let rows = vec![bought("c1", "p1", 2.0), bought("c2", "p1", 1.0), bought("c1", "p1", 7.5)];
    let m = InteractionMatrix::from_rows(&rows, &Vec::new()).unwrap();
    assert_eq!(m.entries(), 2);
    assert_eq!(quantity(&m, "c1", "p1"), Some(7.5));
    assert_eq!(quantity(&m, "c2", "p1"), Some(1.0));
}

#[test]
fn builder_leaves_out_excluded_clients() {
    let rows = vec![bought("walk-in", "p1", 9.0), bought("c1", "p1", 2.0), bought("walk-in", "p2", 1.0)];
    let excluded = vec!["walk-in".to_string()];
    let m = InteractionMatrix::from_rows(&rows, &excluded).unwrap();
    assert_eq!(m.len(), 1);
    assert_eq!(m.entries(), 1);
    assert_eq!(m.find_client("walk-in"), None);
    assert_eq!(m.find_client("c1"), Some(0));
    assert_eq!(quantity(&m, "walk-in", "p1"), None);
}

#[test]
fn builder_fails_without_rows() {
    let built = InteractionMatrix::from_rows(&Vec::new(), &Vec::new());
    assert!(matches!(built, Err(MatrixError::NoInteractions)));
}

#[test]
fn builder_fails_when_every_row_is_excluded() {
    let rows = vec![bought("walk-in", "p1", 9.0)];
    let excluded = vec!["other".to_string(), "walk-in".to_string()];
    let built = InteractionMatrix::from_rows(&rows, &excluded);
    assert!(matches!(built, Err(MatrixError::NoInteractions)));
}

#[test]
fn no_client_is_without_a_purchase() {
    let rows = vec![bought("c1", "p1", 2.0), bought("c1", "p2", 1.0), bought("c2", "p1", 3.0)];
    let m = InteractionMatrix::from_rows(&rows, &Vec::new()).unwrap();
    assert_eq!(m.find_client("c3"), None);
    for i in 0..m.len() {
        assert!(m.row_len(i) >= 1);
    }
}

#[test]
fn find_product_gives_the_place_in_the_row() {
    let rows = vec![bought("c1", "p1", 2.0), bought("c1", "p2", 1.0)];
    let m = InteractionMatrix::from_rows(&rows, &Vec::new()).unwrap();
    assert_eq!(m.find_product(0, "p2"), Some(1));
    assert_eq!(m.find_product(0, "p3"), None);
}

#[test]
fn builder_refuses_a_quantity_below_zero() {
    let rows = vec![bought("c1", "p1", 2.0), bought("c1", "p2", -1.0)];
    let built = InteractionMatrix::from_rows(&rows, &Vec::new());
    assert!(matches!(built, Err(MatrixError::InvalidQuantity)));
}

#[test]
fn builder_refuses_a_quantity_that_is_not_finite() {
    for bad in [f64::NAN, f64::INFINITY, f64::NEG_INFINITY] {
        let rows = vec![bought("c1", "p1", bad)];
        let built = InteractionMatrix::from_rows(&rows, &Vec::new());
        assert!(matches!(built, Err(MatrixError::InvalidQuantity)));
    }
}

#[test]
fn builder_takes_zero_quantities() {
    let rows = vec![bought("c1", "p1", 0.0), bought("c1", "p2", -0.0), bought("c2", "p1", 1.0e300)];
    let m = InteractionMatrix::from_rows(&rows, &Vec::new()).unwrap();
    assert_eq!(m.entries(), 3);
    assert_eq!(quantity(&m, "c1", "p1"), Some(0.0));
}

#[test]
fn builder_does_not_look_at_the_quantities_of_excluded_clients() {
    let rows = vec![bought("walk-in", "p1", -5.0), bought("c1", "p1", 2.0)];
    let excluded = vec!["walk-in".to_string()];
    let m = InteractionMatrix::from_rows(&rows, &excluded).unwrap();
    assert_eq!(m.entries(), 1);
    let only_bad = vec![bought("walk-in", "p1", f64::NAN)];
    assert!(matches!(
        InteractionMatrix::from_rows(&only_bad, &excluded),
        Err(MatrixError::NoInteractions)
    ));
}
