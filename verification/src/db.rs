//! The catalog: client and product rows, paginated listings and the errors
//! of the repository behind them.

use vstd::prelude::*;
use vstd::string::*;
use crate::scalar::Scalar;
use crate::text::same_text;

verus! {

/// A client of the catalog.
pub struct ClientRow {
    pub id: String,
    pub name: String,
    pub email: String,
}

/// One page of a listing of clients.
pub struct ClientPage {
    pub current_page: i64,
    pub total_pages: i64,
    pub clients: Vec<ClientRow>,
}

/// A product of the catalog.
pub struct ProductRow {
    pub id: String,
    pub description: String,
    pub price: Scalar,
}

/// One page of a listing of products.
pub struct ProductPage {
    pub current_page: i64,
    pub total_pages: i64,
    pub products: Vec<ProductRow>,
}

/// A failure of the repository.
#[derive(Debug)]
pub enum DatabaseError {
    ConnectionError(String),
    CloseError(String),
}

/// What the repository was asked to do when it failed.
#[derive(Clone, Copy, Debug, PartialEq, Eq, Structural)]
pub enum Operation {
    BuildMatrix,
    GetClients,
    GetProducts,
    GetClientById,
    GetProductById,
    Close,
}

/// The words that begin the message of a failure of `operation`.
pub open spec fn failure_prefix(operation: Operation) -> Seq<char> {
    match operation {
        Operation::BuildMatrix => "Error building matrix: "@,
        Operation::GetClients => "Error getting clients: "@,
        Operation::GetProducts => "Error getting products: "@,
        Operation::GetClientById => "Error getting client: "@,
        Operation::GetProductById => "Error getting product: "@,
        Operation::Close => "Error closing connection: "@,
    }
}

/// The text of an error's message.
pub open spec fn message_of(e: DatabaseError) -> Seq<char> {
    match e {
        DatabaseError::ConnectionError(m) => m@,
        DatabaseError::CloseError(m) => m@,
    }
}

/// Turns a failure of the backend into a repository error: a close error
/// where closing failed, a connection error otherwise; the message names
/// the operation and ends with the cause.
pub fn backend_error(operation: Operation, cause: &str) -> (e: DatabaseError)
    ensures
        (e is CloseError) == (operation == Operation::Close),
        message_of(e) == failure_prefix(operation) + cause@,
{
    let prefix: &str = match operation {
        Operation::BuildMatrix => "Error building matrix: ",
        Operation::GetClients => "Error getting clients: ",
        Operation::GetProducts => "Error getting products: ",
        Operation::GetClientById => "Error getting client: ",
        Operation::GetProductById => "Error getting product: ",
        Operation::Close => "Error closing connection: ",
    };
    let message = String::from_str(prefix).concat(cause);
    match operation {
        Operation::Close => DatabaseError::CloseError(message),
        _ => DatabaseError::ConnectionError(message),
    }
}

impl DatabaseError {
    /// The error in words: its kind, then its message.
    pub fn describe(&self) -> (text: String)
        ensures
            text@ == match *self {
                DatabaseError::ConnectionError(m) => "Connection Error: "@ + m@,
                DatabaseError::CloseError(m) => "Close Error: "@ + m@,
            },
    {
        match self {
            DatabaseError::ConnectionError(m) => String::from_str("Connection Error: ").concat(
                m.as_str(),
            ),
            DatabaseError::CloseError(m) => String::from_str("Close Error: ").concat(m.as_str()),
        }
    }
}

/// Number of rows on one page of a listing.
pub const PAGE_SIZE: usize = 10;

/// Number of pages of a listing with `matching_rows` rows: the rows divided
/// by the page size, rounded up.
pub open spec fn spec_total_pages(matching_rows: int) -> int {
    (matching_rows + 9) / 10
}

/// Place in the listing of the first row of `page`; pages count from one.
pub open spec fn page_start(page: int) -> int {
    (page - 1) * 10
}

/// The rows of `page`: up to ten rows from the page's start, none for a page
/// before the first or after the last.
pub open spec fn page_rows<T>(listing: Seq<T>, page: int) -> Seq<T> {
    if page < 1 || page_start(page) >= listing.len() {
        Seq::empty()
    } else if page_start(page) + 10 <= listing.len() {
        listing.subrange(page_start(page), page_start(page) + 10)
    } else {
        listing.subrange(page_start(page), listing.len() as int)
    }
}

/// Computes the number of pages of a listing with `matching_rows` rows.
pub fn total_pages(matching_rows: u64) -> (pages: u64)
    ensures
        pages == spec_total_pages(matching_rows as int),
{
    let whole: u64 = matching_rows / 10;
    if matching_rows % 10 == 0 {
        whole
    } else {
        whole + 1
    }
}

/// Number of rows to skip to reach `page`, or `None` for a page before the
/// first and where the number does not fit.
pub fn page_offset(page: i64) -> (offset: Option<i64>)
    ensures
        offset.is_some() == (page >= 1 && page_start(page as int) <= i64::MAX),
        offset matches Some(o) ==> o == page_start(page as int),
{
    if page < 1 {
        None
    } else {
        (page - 1).checked_mul(10)
    }
}

/// Takes the rows of `page` out of a listing.
pub fn take_page<T>(listing: Vec<T>, page: i64) -> (rows: Vec<T>)
    ensures
        rows@ == page_rows(listing@, page as int),
{
    let mut listing = listing;
    let ghost all = listing@;
    if page < 1 {
        listing.truncate(0);
        assert(listing@ =~= Seq::empty());
        return listing;
    }
    let len: usize = listing.len();
    let before: i64 = page - 1;
    if before >= (len / 10 + 1) as i64 {
        listing.truncate(0);
        assert(listing@ =~= Seq::empty());
        return listing;
    }
    let start: usize = (before as usize) * 10;
    if start >= len {
        listing.truncate(0);
        assert(listing@ =~= Seq::empty());
        return listing;
    }
    let mut rows = listing.split_off(start);
    rows.truncate(PAGE_SIZE);
    assert(rows@ =~= page_rows(all, page as int));
    rows
}

/// The page that is reported as the current one where `page` is asked for:
/// the page itself, or the last page where the listing has rows and `page`
/// lies after its last page. A listing without rows has no last page: there
/// the page asked for is reported.
pub open spec fn shown_page(page: int, matching_rows: int) -> int {
    if spec_total_pages(matching_rows) >= 1 && page > spec_total_pages(matching_rows) {
        spec_total_pages(matching_rows)
    } else {
        page
    }
}

/// Number of rows on `page` of a listing with `matching_rows` rows.
pub open spec fn rows_on_page(page: int, matching_rows: int) -> int {
    if page < 1 || page_start(page) >= matching_rows {
        0
    } else if page_start(page) + 10 <= matching_rows {
        10
    } else {
        matching_rows - page_start(page)
    }
}

/// What is kept of the rows that a backend returned for `page`: as many of
/// them, from the first, as the page has rows; none for a page after the last.
pub open spec fn kept_rows<T>(rows: Seq<T>, page: int, matching_rows: int) -> Seq<T> {
    let n = rows_on_page(page, matching_rows);
    if rows.len() <= n {
        rows
    } else {
        rows.subrange(0, n)
    }
}

/// The page to report as the current one where `page` is asked for of a
/// listing with `matching_rows` rows; `None` for a page before the first.
pub fn effective_page(page: i64, matching_rows: u64) -> (shown: Option<i64>)
    ensures
        shown.is_some() == (page >= 1),
        shown matches Some(p) ==> p == shown_page(page as int, matching_rows as int) && p >= 1,
{
    if page < 1 {
        return None;
    }
    let total: u64 = total_pages(matching_rows);
    if total >= 1 && page as u64 > total {
        Some(total as i64)
    } else {
        Some(page)
    }
}

/// Computes the number of rows on `page` of a listing with `matching_rows`
/// rows.
pub fn page_len(page: i64, matching_rows: u64) -> (n: usize)
    ensures
        n == rows_on_page(page as int, matching_rows as int),
        n <= 10,
{
    if page < 1 {
        return 0;
    }
    let start: u128 = ((page - 1) as u128) * 10;
    if start >= matching_rows as u128 {
        0
    } else {
        let rest: u128 = matching_rows as u128 - start;
        if rest >= 10 {
            10
        } else {
            rest as usize
        }
    }
}

/// The rows of `page` of a listing of clients. The call fails if and only if
/// `page` lies before the first page. A page after the last has no rows;
/// where the listing has rows, the last page is then reported as the current
/// one, so that the current page never lies after the last.
pub fn client_page(listing: Vec<ClientRow>, page: i64) -> (result: Result<
    ClientPage,
    DatabaseError,
>)
    ensures
        result.is_ok() == (page >= 1),
        result matches Ok(p) ==> {
            &&& p.current_page == shown_page(page as int, listing@.len() as int)
            &&& p.total_pages == spec_total_pages(listing@.len() as int)
            &&& p.clients@ == page_rows(listing@, page as int)
            &&& p.clients@.len() <= 10
            &&& (p.total_pages >= 1 ==> 1 <= p.current_page <= p.total_pages)
            &&& (p.total_pages == 0 ==> p.clients@.len() == 0)
        },
        result matches Err(e) ==> e is ConnectionError && message_of(e) == failure_prefix(
            Operation::GetClients,
        ) + "page out of range"@,
{
    let matching: u64 = listing.len() as u64;
    if page < 1 {
        return Err(backend_error(Operation::GetClients, "page out of range"));
    }
    proof {
        lemma_page_bounds(listing@, page as int);
    }
    page_of_clients(page, matching, take_page(listing, page))
}

/// The rows of `page` of a listing of products. The call fails if and only if
/// `page` lies before the first page. A page after the last has no rows;
/// where the listing has rows, the last page is then reported as the current
/// one, so that the current page never lies after the last.
pub fn product_page(listing: Vec<ProductRow>, page: i64) -> (result: Result<
    ProductPage,
    DatabaseError,
>)
    ensures
        result.is_ok() == (page >= 1),
        result matches Ok(p) ==> {
            &&& p.current_page == shown_page(page as int, listing@.len() as int)
            &&& p.total_pages == spec_total_pages(listing@.len() as int)
            &&& p.products@ == page_rows(listing@, page as int)
            &&& p.products@.len() <= 10
            &&& (p.total_pages >= 1 ==> 1 <= p.current_page <= p.total_pages)
            &&& (p.total_pages == 0 ==> p.products@.len() == 0)
        },
        result matches Err(e) ==> e is ConnectionError && message_of(e) == failure_prefix(
            Operation::GetProducts,
        ) + "page out of range"@,
{
    let matching: u64 = listing.len() as u64;
    if page < 1 {
        return Err(backend_error(Operation::GetProducts, "page out of range"));
    }
    proof {
        lemma_page_bounds(listing@, page as int);
    }
    page_of_products(page, matching, take_page(listing, page))
}

/// Puts a page of clients together from what a backend returned: the number
/// of rows that match the search and the rows of `page`. The call fails if
/// and only if `page` lies before the first page. Of the rows no more are
/// kept than `page` has, none for a page after the last; the current page
/// is the one that `effective_page` gives.
pub fn page_of_clients(page: i64, matching_rows: u64, rows: Vec<ClientRow>) -> (result: Result<
    ClientPage,
    DatabaseError,
>)
    ensures
        result.is_ok() == (page >= 1),
        result matches Ok(p) ==> {
            &&& p.current_page == shown_page(page as int, matching_rows as int)
            &&& p.total_pages == spec_total_pages(matching_rows as int)
            &&& p.clients@ == kept_rows(rows@, page as int, matching_rows as int)
            &&& p.clients@.len() <= 10
            &&& (p.total_pages >= 1 ==> 1 <= p.current_page <= p.total_pages)
            &&& (p.total_pages == 0 ==> p.clients@.len() == 0)
        },
        result matches Err(e) ==> e is ConnectionError && message_of(e) == failure_prefix(
            Operation::GetClients,
        ) + "page out of range"@,
{
    let shown: i64 = match effective_page(page, matching_rows) {
        Some(p) => p,
        None => {
            return Err(backend_error(Operation::GetClients, "page out of range"));
        },
    };
    let mut clients = rows;
    clients.truncate(page_len(page, matching_rows));
    assert(clients@ =~= kept_rows(rows@, page as int, matching_rows as int));
    Ok(ClientPage { current_page: shown, total_pages: total_pages(matching_rows) as i64, clients })
}

/// Puts a page of products together from what a backend returned: the
/// number of rows that match the search and the rows of `page`. The call
/// fails if and only if `page` lies before the first page. Of the rows no
/// more are kept than `page` has, none for a page after the last; the
/// current page is the one that `effective_page` gives.
pub fn page_of_products(page: i64, matching_rows: u64, rows: Vec<ProductRow>) -> (result: Result<
    ProductPage,
    DatabaseError,
>)
    ensures
        result.is_ok() == (page >= 1),
        result matches Ok(p) ==> {
            &&& p.current_page == shown_page(page as int, matching_rows as int)
            &&& p.total_pages == spec_total_pages(matching_rows as int)
            &&& p.products@ == kept_rows(rows@, page as int, matching_rows as int)
            &&& p.products@.len() <= 10
            &&& (p.total_pages >= 1 ==> 1 <= p.current_page <= p.total_pages)
            &&& (p.total_pages == 0 ==> p.products@.len() == 0)
        },
        result matches Err(e) ==> e is ConnectionError && message_of(e) == failure_prefix(
            Operation::GetProducts,
        ) + "page out of range"@,
{
    let shown: i64 = match effective_page(page, matching_rows) {
        Some(p) => p,
        None => {
            return Err(backend_error(Operation::GetProducts, "page out of range"));
        },
    };
    let mut products = rows;
    products.truncate(page_len(page, matching_rows));
    assert(products@ =~= kept_rows(rows@, page as int, matching_rows as int));
    Ok(
        ProductPage {
            current_page: shown,
            total_pages: total_pages(matching_rows) as i64,
            products,
        },
    )
}

impl ClientRow {
    /// The client of a row of the clients table. A column without a value
    /// gets a word that says so.
    pub fn from_columns(id: Option<String>, name: Option<String>, email: Option<String>) -> (row:
        ClientRow)
        ensures
            row.id@ == match id {
                Some(v) => v@,
                None => "unknown_id"@,
            },
            row.name@ == match name {
                Some(v) => v@,
                None => "unknown_name"@,
            },
            row.email@ == match email {
                Some(v) => v@,
                None => "unknown_email"@,
            },
    {
        ClientRow {
            id: match id {
                Some(v) => v,
                None => String::from_str("unknown_id"),
            },
            name: match name {
                Some(v) => v,
                None => String::from_str("unknown_name"),
            },
            email: match email {
                Some(v) => v,
                None => String::from_str("unknown_email"),
            },
        }
    }
}

impl ProductRow {
    /// The product of a row of the inventory table. A column without a
    /// value gets a word that says so; a price without a value is zero.
    pub fn from_columns(id: Option<String>, description: Option<String>, price: Option<Scalar>) -> (row:
        ProductRow)
        ensures
            row.id@ == match id {
                Some(v) => v@,
                None => "unknown_product"@,
            },
            row.description@ == match description {
                Some(v) => v@,
                None => "unknown_product"@,
            },
            row.price == match price {
                Some(v) => v,
                None => Scalar { bits: 0 },
            },
    {
        ProductRow {
            id: match id {
                Some(v) => v,
                None => String::from_str("unknown_product"),
            },
            description: match description {
                Some(v) => v,
                None => String::from_str("unknown_product"),
            },
            price: match price {
                Some(v) => v,
                None => Scalar::zero(),
            },
        }
    }
}

/// The page that a listing request asks for: the first where it names none.
pub fn requested_page(page: Option<i64>) -> (p: i64)
    ensures
        p == match page {
            Some(v) => v,
            None => 1,
        },
{
    match page {
        Some(v) => v,
        None => 1,
    }
}

/// The kinds of backend that a repository can be.
#[derive(Clone, Copy, Debug, PartialEq, Eq, Structural)]
pub enum BackendKind {
    SqlServer,
    Firebird,
}

/// The backend that a configuration names: `sqlserver` or `firebird`;
/// `None` for any other name.
pub fn backend_kind(name: &str) -> (kind: Option<BackendKind>)
    ensures
        kind == if name@ == "sqlserver"@ {
            Some(BackendKind::SqlServer)
        } else if name@ == "firebird"@ {
            Some(BackendKind::Firebird)
        } else {
            None
        },
{
    if same_text(name, "sqlserver") {
        Some(BackendKind::SqlServer)
    } else if same_text(name, "firebird") {
        Some(BackendKind::Firebird)
    } else {
        None
    }
}

/// Whatever page is asked for, from the first on: the page holds at most ten
/// rows, and exactly those that the listing has from the page's start. A
/// listing without rows has no pages. Where the listing has rows, the page
/// reported as the current one lies between the first page and the last; it
/// is the page asked for up to the last page, and every such page holds a
/// row; a page after the last holds none.
pub proof fn lemma_page_bounds<T>(listing: Seq<T>, page: int)
    requires
        page >= 1,
    ensures
        page_rows(listing, page).len() == rows_on_page(page, listing.len() as int),
        page_rows(listing, page).len() <= 10,
        listing.len() == 0 ==> spec_total_pages(listing.len() as int) == 0 && page_rows(
            listing,
            page,
        ).len() == 0,
        listing.len() > 0 ==> 1 <= shown_page(page, listing.len() as int) <= spec_total_pages(
            listing.len() as int,
        ),
        page <= spec_total_pages(listing.len() as int) ==> shown_page(page, listing.len() as int)
            == page && page_rows(listing, page).len() >= 1,
        page > spec_total_pages(listing.len() as int) ==> page_rows(listing, page).len() == 0,
{
}

/// The same of a page put together from what a backend returned, whatever
/// rows it returned: at most ten rows are kept, none where no row matches
/// and none for a page after the last; and where rows match, the page
/// reported as the current one lies between the first page and the last.
pub proof fn lemma_kept_rows_bounds<T>(rows: Seq<T>, page: int, matching_rows: int)
    requires
        page >= 1,
        matching_rows >= 0,
    ensures
        kept_rows(rows, page, matching_rows).len() <= 10,
        kept_rows(rows, page, matching_rows).len() <= rows_on_page(page, matching_rows),
        matching_rows == 0 ==> spec_total_pages(matching_rows) == 0 && kept_rows(
            rows,
            page,
            matching_rows,
        ).len() == 0,
        page > spec_total_pages(matching_rows) ==> kept_rows(rows, page, matching_rows).len() == 0,
        matching_rows > 0 ==> 1 <= shown_page(page, matching_rows) <= spec_total_pages(
            matching_rows,
        ),
{
}

} // verus!
