use als_recommender::db::{
    backend_error, backend_kind, client_page, effective_page, page_len, page_of_clients,
    page_of_products, page_offset,
    product_page, requested_page, take_page, total_pages, BackendKind, ClientRow, DatabaseError,
    Operation, ProductRow, PAGE_SIZE,
};
use als_recommender::scalar::Scalar;

fn listed_clients(n: usize) -> Vec<ClientRow> {
    (0..n)
        .map(|i| ClientRow {
            id: format!("C{:03}", i),
            name: format!("Client {}", i),
            email: format!("c{}@example.org", i),
        })
        .collect()
}

fn listed_products(n: usize) -> Vec<ProductRow> {
    (0..n)
        .map(|i| ProductRow {
            id: format!("P{:03}", i),
            description: format!("Product {}", i),
            price: Scalar::from_bits((i as f64 * 1.5).to_bits()),
        })
        .collect()
}

#[test]
fn pagination_boundary() {
    let page = client_page(listed_clients(25), 3).ok().unwrap();
    assert_eq!(page.current_page, 3);
    assert_eq!(page.total_pages, 3);
    assert_eq!(page.clients.len(), 5);
    assert_eq!(page.clients[0].id, "C020");
    assert_eq!(page.clients[4].id, "C024");
}

#[test]
fn first_page_holds_ten_rows() {
    let page = client_page(listed_clients(25), 1).ok().unwrap();
    assert_eq!(page.clients.len(), 10);
    assert_eq!(page.clients[0].id, "C000");
    assert_eq!(page.clients[9].id, "C009");
    assert_eq!(page.total_pages, 3);
}

#[test]
fn page_after_the_last_is_empty() {
    let page = client_page(listed_clients(25), 4).ok().unwrap();
    assert_eq!(page.current_page, 3);
    assert_eq!(page.total_pages, 3);
    assert!(page.clients.is_empty());
    let far = client_page(listed_clients(25), i64::MAX).ok().unwrap();
    assert_eq!(far.current_page, 3);
    assert!(far.clients.is_empty());
    let full = product_page(listed_products(20), 9).ok().unwrap();
    assert_eq!(full.current_page, 2);
    assert_eq!(full.total_pages, 2);
    assert!(full.products.is_empty());
}

#[test]
fn paging_until_the_list_is_empty_comes_to_an_end() {
    let mut seen = 0;
    let mut page = 1;
    loop {
        let p = client_page(listed_clients(25), page).ok().unwrap();
        if p.clients.is_empty() {
            break;
        }
        seen += p.clients.len();
        page += 1;
    }
    assert_eq!(seen, 25);
    assert_eq!(page, 4);
}

#[test]
fn listing_without_rows_has_no_pages() {
    let page = client_page(Vec::new(), 1).ok().unwrap();
    assert_eq!(page.total_pages, 0);
    assert!(page.clients.is_empty());
    let later = client_page(Vec::new(), 7).ok().unwrap();
    assert_eq!(later.current_page, 7);
    assert_eq!(later.total_pages, 0);
    assert!(later.clients.is_empty());
}

#[test]
fn page_before_the_first_is_an_error() {
    let failed = client_page(listed_clients(25), 0);
    match failed {
        Err(DatabaseError::ConnectionError(m)) => {
            assert_eq!(m, "Error getting clients: page out of range")
        }
        _ => panic!("expected a connection error"),
    }
    assert!(product_page(listed_products(3), -1).is_err());
}

#[test]
fn products_are_paged_like_clients() {
    let page = product_page(listed_products(11), 2).ok().unwrap();
    assert_eq!(page.current_page, 2);
    assert_eq!(page.total_pages, 2);
    assert_eq!(page.products.len(), 1);
    assert_eq!(page.products[0].id, "P010");
    assert_eq!(f64::from_bits(page.products[0].price.to_bits()), 15.0);
}

#[test]
fn every_page_obeys_the_bounds() {
    for n in [0usize, 1, 9, 10, 11, 20, 25] {
        for page in 1..6i64 {
            let p = client_page(listed_clients(n), page).ok().unwrap();
            assert!(p.clients.len() <= 10);
            if n == 0 {
                assert_eq!(p.total_pages, 0);
                assert!(p.clients.is_empty());
            } else {
                assert!(1 <= p.current_page && p.current_page <= p.total_pages);
                assert_eq!(p.clients.is_empty(), page > p.total_pages);
                assert_eq!(p.current_page, page.min(p.total_pages));
            }
        }
    }
}

#[test]
fn total_pages_rounds_up() {
    assert_eq!(PAGE_SIZE, 10);
    assert_eq!(total_pages(0), 0);
    assert_eq!(total_pages(1), 1);
    assert_eq!(total_pages(10), 1);
    assert_eq!(total_pages(11), 2);
    assert_eq!(total_pages(25), 3);
    assert_eq!(total_pages(u64::MAX), 1844674407370955162);
}

#[test]
fn page_offset_skips_the_earlier_pages() {
    assert_eq!(page_offset(1), Some(0));
    assert_eq!(page_offset(3), Some(20));
    assert_eq!(page_offset(0), None);
    assert_eq!(page_offset(-2), None);
    assert_eq!(page_offset(i64::MAX), None);
    assert_eq!(page_offset(922337203685477581), Some(9223372036854775800));
    assert_eq!(page_offset(922337203685477582), None);
}

#[test]
fn take_page_of_any_rows() {
    let numbers: Vec<u32> = (0..23).collect();
    assert_eq!(take_page(numbers.clone(), 2), (10..20).collect::<Vec<u32>>());
    assert_eq!(take_page(numbers.clone(), 3), vec![20, 21, 22]);
    assert_eq!(take_page(numbers.clone(), 4), Vec::<u32>::new());
    assert_eq!(take_page(numbers, 0), Vec::<u32>::new());
}

#[test]
fn requested_page_is_the_first_by_default() {
    assert_eq!(requested_page(None), 1);
    assert_eq!(requested_page(Some(7)), 7);
}

#[test]
fn backend_errors_name_the_operation() {
    let cases = [
        (Operation::BuildMatrix, "Error building matrix: boom"),
        (Operation::GetClients, "Error getting clients: boom"),
        (Operation::GetProducts, "Error getting products: boom"),
        (Operation::GetClientById, "Error getting client: boom"),
        (Operation::GetProductById, "Error getting product: boom"),
    ];
    for (operation, expected) in cases {
        match backend_error(operation, "boom") {
            DatabaseError::ConnectionError(m) => assert_eq!(m, expected),
            DatabaseError::CloseError(_) => panic!("expected a connection error"),
        }
    }
    match backend_error(Operation::Close, "boom") {
        DatabaseError::CloseError(m) => assert_eq!(m, "Error closing connection: boom"),
        DatabaseError::ConnectionError(_) => panic!("expected a close error"),
    }
}

#[test]
fn errors_describe_themselves() {
    let lost = DatabaseError::ConnectionError("Database not initialized".to_string());
    assert_eq!(lost.describe(), "Connection Error: Database not initialized");
    let stuck = DatabaseError::CloseError("busy".to_string());
    assert_eq!(stuck.describe(), "Close Error: busy");
}

#[test]
fn backend_names_are_recognised() {
    assert_eq!(backend_kind("sqlserver"), Some(BackendKind::SqlServer));
    assert_eq!(backend_kind("firebird"), Some(BackendKind::Firebird));
    assert_eq!(backend_kind("postgres"), None);
    assert_eq!(backend_kind("SqlServer"), None);
    assert_eq!(backend_kind(""), None);
}

#[test]
fn page_is_put_together_from_what_the_backend_returned() {
    let rows: Vec<ClientRow> = listed_clients(25).into_iter().skip(20).collect();
    let page = page_of_clients(3, 25, rows).ok().unwrap();
    assert_eq!(page.current_page, 3);
    assert_eq!(page.total_pages, 3);
    assert_eq!(page.clients.len(), 5);
    let empty = page_of_clients(1, 0, Vec::new()).ok().unwrap();
    assert_eq!(empty.total_pages, 0);
    assert!(empty.clients.is_empty());
    assert!(page_of_clients(0, 25, Vec::new()).is_err());
    assert!(page_of_products(-3, 25, Vec::new()).is_err());
}

#[test]
fn page_keeps_no_more_than_ten_rows() {
    let page = page_of_clients(1, 40, listed_clients(14)).ok().unwrap();
    assert_eq!(page.clients.len(), 10);
    assert_eq!(page.clients[9].id, "C009");
    assert_eq!(page.total_pages, 4);
    let products = page_of_products(2, 11, listed_products(12)).ok().unwrap();
    assert_eq!(products.products.len(), 1);
    assert_eq!(products.total_pages, 2);
    let none = page_of_clients(1, 0, listed_clients(3)).ok().unwrap();
    assert_eq!(none.total_pages, 0);
    assert!(none.clients.is_empty());
}

#[test]
fn missing_columns_get_a_word_that_says_so() {
    let bare = ClientRow::from_columns(None, None, None);
    assert_eq!(bare.id, "unknown_id");
    assert_eq!(bare.name, "unknown_name");
    assert_eq!(bare.email, "unknown_email");
    let full = ClientRow::from_columns(
        Some("C1".to_string()),
        Some("Ann".to_string()),
        Some("ann@example.org".to_string()),
    );
    assert_eq!((full.id.as_str(), full.name.as_str(), full.email.as_str()), ("C1", "Ann", "ann@example.org"));
    let nameless = ProductRow::from_columns(None, None, None);
    assert_eq!(nameless.id, "unknown_product");
    assert_eq!(nameless.description, "unknown_product");
    assert_eq!(f64::from_bits(nameless.price.to_bits()), 0.0);
    let priced = ProductRow::from_columns(
        Some("P1".to_string()),
        Some("Nut".to_string()),
        Some(Scalar::from_bits(2.5f64.to_bits())),
    );
    assert_eq!(priced.id, "P1");
    assert_eq!(f64::from_bits(priced.price.to_bits()), 2.5);
}

#[test]
fn page_put_together_never_lies_after_the_last() {
    let rows: Vec<ClientRow> = listed_clients(25).into_iter().skip(20).collect();
    let page = page_of_clients(4, 25, rows).ok().unwrap();
    assert_eq!(page.current_page, 3);
    assert_eq!(page.total_pages, 3);
    assert!(page.clients.is_empty());
    for matching in [1u64, 9, 10, 11, 25, 30] {
        for asked in 1..8i64 {
            let p = page_of_products(asked, matching, listed_products(10)).ok().unwrap();
            assert!(p.current_page <= p.total_pages);
            assert!(p.products.len() <= 10);
        }
    }
}

#[test]
fn effective_page_falls_back_to_the_last() {
    assert_eq!(effective_page(1, 25), Some(1));
    assert_eq!(effective_page(3, 25), Some(3));
    assert_eq!(effective_page(4, 25), Some(3));
    assert_eq!(effective_page(i64::MAX, 1), Some(1));
    assert_eq!(effective_page(5, 0), Some(5));
    assert_eq!(effective_page(0, 25), None);
    assert_eq!(effective_page(-1, 0), None);
}

#[test]
fn page_len_counts_the_rows_of_a_page() {
    assert_eq!(page_len(1, 25), 10);
    assert_eq!(page_len(3, 25), 5);
    assert_eq!(page_len(4, 25), 0);
    assert_eq!(page_len(1, 0), 0);
    assert_eq!(page_len(0, 25), 0);
    assert_eq!(page_len(i64::MAX, u64::MAX), 0);
    assert_eq!(page_len(2, 20), 10);
}
