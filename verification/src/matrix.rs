//! The client-product interaction matrix and its builder.

use vstd::prelude::*;
use vstd::string::*;
use crate::index::{texts, IndexMap};
use crate::scalar::Scalar;
use crate::text::same_text;

verus! {

/// One aggregated purchase: how much of a product a client bought.
#[derive(Clone)]
pub struct Interaction {
    pub client_id: String,
    pub product_id: String,
    pub quantity: Scalar,
}

/// What a client bought: products and, position by position, quantities.
pub struct ClientPurchases {
    client_id: String,
    product_ids: Vec<String>,
    quantities: Vec<Scalar>,
}

/// The interactions of all clients, in the order in which clients and
/// products were first seen.
pub struct InteractionMatrix {
    rows: Vec<ClientPurchases>,
    clients: IndexMap,
    entries: usize,
}

/// Why no matrix was built.
#[derive(Clone, Copy, Debug, PartialEq, Eq, Structural)]
pub enum MatrixError {
    /// No interaction was left to build a matrix from.
    NoInteractions,
    /// An interaction has a quantity that is below zero, infinite or not a
    /// number.
    InvalidQuantity,
}

/// The mathematical content of one client's purchases.
pub ghost struct RowModel {
    pub client: Seq<char>,
    pub products: Seq<Seq<char>>,
    pub quantities: Seq<Scalar>,
}

/// The clients of the rows, in order.
pub open spec fn clients_of(m: Seq<RowModel>) -> Seq<Seq<char>> {
    Seq::new(m.len(), |i: int| m[i].client)
}

/// Keys are unique, no client is without a purchase, and every quantity is
/// finite and not below zero.
pub open spec fn matrix_wf(m: Seq<RowModel>) -> bool {
    &&& clients_of(m).no_duplicates()
    &&& forall|i: int|
        0 <= i < m.len() ==> {
            &&& (#[trigger] m[i]).products.len() == m[i].quantities.len()
            &&& m[i].products.len() >= 1
            &&& m[i].products.no_duplicates()
        }
    &&& forall|i: int, k: int|
        0 <= i < m.len() && 0 <= k < m[i].quantities.len() ==> (
        #[trigger] m[i].quantities[k]).finite_non_negative()
}

/// Number of interactions in the rows.
pub open spec fn count_entries(m: Seq<RowModel>) -> nat
    decreases m.len(),
{
    if m.len() == 0 {
        0
    } else {
        count_entries(m.drop_last()) + m.last().products.len()
    }
}

/// The quantity recorded for client `c` and product `p`, if there is one.
pub open spec fn quantity_of(m: Seq<RowModel>, c: Seq<char>, p: Seq<char>) -> Option<Scalar> {
    if clients_of(m).contains(c) {
        let row = m[clients_of(m).index_of(c)];
        if row.products.contains(p) {
            Some(row.quantities[row.products.index_of(p)])
        } else {
            None
        }
    } else {
        None
    }
}

/// The rows after recording that client `c` bought quantity `q` of product
/// `p`: a pair that was there gets the new quantity; a new product goes to
/// the end of its client's row, a new client to the end of the rows.
pub open spec fn record_into(m: Seq<RowModel>, c: Seq<char>, p: Seq<char>, q: Scalar) -> Seq<
    RowModel,
> {
    if clients_of(m).contains(c) {
        let i = clients_of(m).index_of(c);
        let row = m[i];
        if row.products.contains(p) {
            let k = row.products.index_of(p);
            m.update(
                i,
                RowModel {
                    client: row.client,
                    products: row.products,
                    quantities: row.quantities.update(k, q),
                },
            )
        } else {
            m.update(
                i,
                RowModel {
                    client: row.client,
                    products: row.products.push(p),
                    quantities: row.quantities.push(q),
                },
            )
        }
    } else {
        m.push(RowModel { client: c, products: seq![p], quantities: seq![q] })
    }
}

/// The rows built from the first `upto` interactions, those of excluded
/// clients left out.
pub open spec fn assemble(rows: Seq<Interaction>, excluded: Seq<Seq<char>>, upto: int) -> Seq<
    RowModel,
>
    decreases upto,
{
    if upto <= 0 {
        Seq::empty()
    } else {
        let earlier = assemble(rows, excluded, upto - 1);
        let last = rows[upto - 1];
        if excluded.contains(last.client_id@) {
            earlier
        } else {
            record_into(earlier, last.client_id@, last.product_id@, last.quantity)
        }
    }
}

/// Recording keeps the rows well formed and adds at most one interaction.
pub proof fn lemma_record_into_wf(m: Seq<RowModel>, c: Seq<char>, p: Seq<char>, q: Scalar)
    requires
        matrix_wf(m),
        q.finite_non_negative(),
    ensures
        matrix_wf(record_into(m, c, p, q)),
        count_entries(m) <= count_entries(record_into(m, c, p, q)) <= count_entries(m) + 1,
        record_into(m, c, p, q).len() >= 1,
{
    let after = record_into(m, c, p, q);
    if clients_of(m).contains(c) {
        let i = clients_of(m).index_of(c);
        assert(clients_of(after) =~= clients_of(m));
        let row = m[i];
        if row.products.contains(p) {
            lemma_count_update(m, i, after[i]);
        } else {
            assert(after[i].products.no_duplicates()) by {
                assert forall|a: int, b: int|
                    0 <= a < after[i].products.len() && 0 <= b < after[i].products.len() && a
                        != b implies after[i].products[a] != after[i].products[b] by {
                    if a < row.products.len() {
                        assert(row.products.contains(after[i].products[a]));
                    }
                    if b < row.products.len() {
                        assert(row.products.contains(after[i].products[b]));
                    }
                }
            }
            lemma_count_update(m, i, after[i]);
        }
    } else {
        assert(clients_of(after) =~= clients_of(m).push(c));
        assert(clients_of(after).no_duplicates()) by {
            assert forall|a: int, b: int|
                0 <= a < after.len() && 0 <= b < after.len() && a != b implies clients_of(after)[a]
                != clients_of(after)[b] by {
                if a < m.len() {
                    assert(clients_of(m).contains(clients_of(m)[a]));
                }
                if b < m.len() {
                    assert(clients_of(m).contains(clients_of(m)[b]));
                }
            }
        }
        assert(after.drop_last() =~= m);
    }
}

/// Replacing a row changes the count by the change in the row's length.
pub proof fn lemma_count_update(m: Seq<RowModel>, i: int, row: RowModel)
    requires
        0 <= i < m.len(),
    ensures
        count_entries(m.update(i, row)) + m[i].products.len() == count_entries(m)
            + row.products.len(),
    decreases m.len(),
{
    let after = m.update(i, row);
    if i == m.len() - 1 {
        assert(after.drop_last() =~= m.drop_last());
    } else {
        assert(after.drop_last() =~= m.drop_last().update(i, row));
        lemma_count_update(m.drop_last(), i, row);
    }
}

/// What was recorded is found again, and nothing else changes.
pub proof fn lemma_record_into_lookup(
    m: Seq<RowModel>,
    c: Seq<char>,
    p: Seq<char>,
    q: Scalar,
    other_client: Seq<char>,
    other_product: Seq<char>,
)
    requires
        matrix_wf(m),
        q.finite_non_negative(),
    ensures
        quantity_of(record_into(m, c, p, q), other_client, other_product) == if other_client == c && other_product == p {
            Some(q)
        } else {
            quantity_of(m, other_client, other_product)
        },
{
    let after = record_into(m, c, p, q);
    lemma_record_into_wf(m, c, p, q);
    if clients_of(m).contains(c) {
        let i = clients_of(m).index_of(c);
        assert(clients_of(after) =~= clients_of(m));
        let row = m[i];
        if clients_of(m).contains(other_client) {
            let other_row = clients_of(m).index_of(other_client);
            if other_client == c {
                assert(other_row == i);
                if row.products.contains(p) {
                } else {
                    let grown = after[i].products;
                    assert(grown[row.products.len() as int] == p);
                    if other_product == p {
                        assert(grown.contains(p));
                        assert(grown.index_of(p) == row.products.len());
                    } else if row.products.contains(other_product) {
                        let k = row.products.index_of(other_product);
                        assert(grown[k] == other_product);
                        assert(grown.contains(other_product));
                        assert(grown.index_of(other_product) == k);
                    } else {
                        if grown.contains(other_product) {
                            let k = grown.index_of(other_product);
                            assert(row.products[k] == other_product);
                        }
                    }
                }
            } else {
                assert(other_row != i);
            }
        }
    } else {
        assert(clients_of(after) =~= clients_of(m).push(c));
        let n = m.len() as int;
        assert(clients_of(after)[n] == c);
        if other_client == c {
            assert(clients_of(after).contains(c));
            assert(clients_of(after).index_of(c) == n);
            let single = after[n].products;
            assert(single[0] == p);
            if other_product == p {
                assert(single.contains(p));
            } else if single.contains(other_product) {
                let k = single.index_of(other_product);
            }
        } else if clients_of(m).contains(other_client) {
            let other_row = clients_of(m).index_of(other_client);
            assert(clients_of(after)[other_row] == other_client);
            assert(clients_of(after).contains(other_client));
            assert(clients_of(after).index_of(other_client) == other_row);
        } else {
            if clients_of(after).contains(other_client) {
                let k = clients_of(after).index_of(other_client);
                assert(clients_of(m)[k] == other_client);
            }
        }
    }
}

/// The first `i` rows hold no more interactions than all rows, and less by
/// at least the length of row `i`.
pub proof fn lemma_count_prefix(m: Seq<RowModel>, i: int)
    requires
        0 <= i <= m.len(),
    ensures
        count_entries(m.take(i)) <= count_entries(m),
        i < m.len() ==> count_entries(m.take(i + 1)) == count_entries(m.take(i))
            + m[i].products.len(),
    decreases m.len() - i,
{
    if i == m.len() {
        assert(m.take(i) =~= m);
    } else {
        assert(m.take(i + 1).drop_last() =~= m.take(i));
        lemma_count_prefix(m, i + 1);
    }
}

/// The first `upto` interactions that are not of excluded clients all have
/// a quantity that is finite and not below zero.
pub open spec fn quantities_valid(rows: Seq<Interaction>, excluded: Seq<Seq<char>>, upto: int) -> bool {
    forall|i: int|
        0 <= i < upto && !excluded.contains((#[trigger] rows[i]).client_id@)
            ==> rows[i].quantity.finite_non_negative()
}

/// Assembling gives well-formed rows with no more interactions than were read.
pub proof fn lemma_assemble_wf(rows: Seq<Interaction>, excluded: Seq<Seq<char>>, upto: int)
    requires
        0 <= upto <= rows.len(),
        quantities_valid(rows, excluded, upto),
    ensures
        matrix_wf(assemble(rows, excluded, upto)),
        count_entries(assemble(rows, excluded, upto)) <= upto,
    decreases upto,
{
    if upto > 0 {
        lemma_assemble_wf(rows, excluded, upto - 1);
        let earlier = assemble(rows, excluded, upto - 1);
        let last = rows[upto - 1];
        if !excluded.contains(last.client_id@) {
            lemma_record_into_wf(earlier, last.client_id@, last.product_id@, last.quantity);
        }
    } else {
        assert(clients_of(Seq::<RowModel>::empty()) =~= Seq::empty());
    }
}

impl ClientPurchases {
    /// The mathematical content of the row.
    pub closed spec fn view(&self) -> RowModel {
        RowModel {
            client: self.client_id@,
            products: texts(self.product_ids@),
            quantities: self.quantities@,
        }
    }
}

impl InteractionMatrix {
    /// The rows of the matrix.
    pub closed spec fn view(&self) -> Seq<RowModel> {
        Seq::new(self.rows@.len(), |i: int| self.rows@[i]@)
    }

    /// The rows are well formed and the interaction count is kept.
    pub closed spec fn wf(&self) -> bool {
        &&& matrix_wf(self@)
        &&& self.entries == count_entries(self@)
        &&& self.clients.wf()
        &&& self.clients@ == clients_of(self@)
    }

    /// A valid matrix has well-formed rows.
    pub proof fn lemma_wf(&self)
        requires
            self.wf(),
        ensures
            matrix_wf(self@),
            count_entries(self@) <= usize::MAX,
    {
    }

    /// Number of clients.
    pub fn len(&self) -> (n: usize)
        ensures
            n == self@.len(),
    {
        self.rows.len()
    }

    /// Number of interactions.
    pub fn entries(&self) -> (n: usize)
        requires
            self.wf(),
        ensures
            n == count_entries(self@),
    {
        self.entries
    }

    /// The client of row `i`.
    pub fn client_id(&self, i: usize) -> (id: &String)
        requires
            i < self@.len(),
        ensures
            id@ == self@[i as int].client,
    {
        &self.rows[i].client_id
    }

    /// Number of products in row `i`.
    pub fn row_len(&self, i: usize) -> (n: usize)
        requires
            i < self@.len(),
        ensures
            n == self@[i as int].products.len(),
    {
        self.rows[i].product_ids.len()
    }

    /// The product at place `k` of row `i`.
    pub fn product_id(&self, i: usize, k: usize) -> (id: &String)
        requires
            i < self@.len(),
            k < self@[i as int].products.len(),
        ensures
            id@ == self@[i as int].products[k as int],
    {
        &self.rows[i].product_ids[k]
    }

    /// The quantity at place `k` of row `i`.
    pub fn quantity_at(&self, i: usize, k: usize) -> (q: Scalar)
        requires
            self.wf(),
            i < self@.len(),
            k < self@[i as int].products.len(),
        ensures
            q == self@[i as int].quantities[k as int],
    {
        self.rows[i].quantities[k]
    }

    /// The row of client `c`, if the matrix has one.
    pub fn find_client(&self, c: &str) -> (found: Option<usize>)
        requires
            self.wf(),
        ensures
            found.is_some() == clients_of(self@).contains(c@),
            found matches Some(i) ==> i < self@.len() && self@[i as int].client == c@,
    {
        let found = self.clients.get(c);
        proof {
            if let Some(i) = found {
                assert(clients_of(self@)[i as int] == c@);
            }
        }
        found
    }

    /// The place of product `p` in row `i`, if it is there.
    pub fn find_product(&self, i: usize, p: &str) -> (found: Option<usize>)
        requires
            i < self@.len(),
        ensures
            found.is_some() == self@[i as int].products.contains(p@),
            found matches Some(k) ==> k < self@[i as int].products.len()
                && self@[i as int].products[k as int] == p@,
    {
        let row = &self.rows[i];
        let mut k: usize = 0;
        while k < row.product_ids.len()
            invariant
                0 <= k <= row.product_ids.len(),
                row@ == self@[i as int],
                forall|j: int| 0 <= j < k ==> texts(row.product_ids@)[j] != p@,
            decreases row.product_ids.len() - k,
        {
            if same_text(row.product_ids[k].as_str(), p) {
                assert(texts(row.product_ids@)[k as int] == p@);
                return Some(k);
            }
            k += 1;
        }
        None
    }

    /// The quantity recorded for client `c` and product `p`.
    pub fn get(&self, c: &str, p: &str) -> (q: Option<Scalar>)
        requires
            self.wf(),
        ensures
            q == quantity_of(self@, c@, p@),
    {
        match self.find_client(c) {
            None => None,
            Some(i) => {
                assert(clients_of(self@)[i as int] == c@);
                match self.find_product(i, p) {
                    None => None,
                    Some(k) => Some(self.rows[i].quantities[k]),
                }
            },
        }
    }

    fn record(&mut self, c: &str, p: &str, q: Scalar)
        requires
            old(self).wf(),
            old(self).entries < usize::MAX,
            q.finite_non_negative(),
        ensures
            final(self).wf(),
            final(self)@ == record_into(old(self)@, c@, p@, q),
    {
        proof {
            lemma_record_into_wf(self@, c@, p@, q);
        }
        let ghost before = self@;
        match self.find_client(c) {
            Some(i) => {
                assert(clients_of(before)[i as int] == c@);
                match self.find_product(i, p) {
                    Some(k) => {
                        self.rows[i].quantities[k] = q;
                        proof {
                            lemma_count_update(before, i as int, self@[i as int]);
                        }
                        assert(self@ =~= record_into(before, c@, p@, q));
                        assert(clients_of(self@) =~= clients_of(before));
                    },
                    None => {
                        let row = &mut self.rows[i];
                        row.product_ids.push(String::from_str(p));
                        row.quantities.push(q);
                        self.entries = self.entries + 1;
                        proof {
                            assert(self@[i as int].products =~= before[i as int].products.push(p@));
                            lemma_count_update(before, i as int, self@[i as int]);
                        }
                        assert(self@ =~= record_into(before, c@, p@, q));
                        assert(clients_of(self@) =~= clients_of(before));
                    },
                }
            },
            None => {
                let mut product_ids: Vec<String> = Vec::new();
                product_ids.push(String::from_str(p));
                let mut quantities: Vec<Scalar> = Vec::new();
                quantities.push(q);
                let row = ClientPurchases { client_id: String::from_str(c), product_ids, quantities };
                assert(row@.products =~= seq![p@]);
                assert(row@.quantities =~= seq![q]);
                self.rows.push(row);
                self.clients.insert(c);
                self.entries = self.entries + 1;
                assert(self@ =~= record_into(before, c@, p@, q));
                assert(self@.drop_last() =~= before);
                assert(clients_of(self@) =~= clients_of(before).push(c@));
            },
        }
    }

    /// Builds the matrix of the given interactions, leaving out those of the
    /// excluded clients. A pair that occurs again replaces its quantity.
    /// Fails with `InvalidQuantity` if and only if an interaction that is not
    /// left out has a quantity below zero, infinite or not a number; else
    /// with `NoInteractions` if and only if no interaction is left.
    pub fn from_rows(rows: &Vec<Interaction>, excluded: &Vec<String>) -> (built: Result<
        InteractionMatrix,
        MatrixError,
    >)
        ensures
            built == Err::<InteractionMatrix, MatrixError>(MatrixError::InvalidQuantity)
                <==> !quantities_valid(rows@, texts(excluded@), rows@.len() as int),
            built.is_ok() == (quantities_valid(rows@, texts(excluded@), rows@.len() as int)
                && assemble(rows@, texts(excluded@), rows@.len() as int).len() > 0),
            built matches Ok(m) ==> m.wf() && m@ == assemble(
                rows@,
                texts(excluded@),
                rows@.len() as int,
            ),
    {
        let mut m = InteractionMatrix { rows: Vec::new(), clients: IndexMap::new(), entries: 0 };
        assert(m@ =~= Seq::empty());
        assert(clients_of(m@) =~= Seq::empty());
        assert(m.clients@ =~= clients_of(m@));
        let mut i: usize = 0;
        while i < rows.len()
            invariant
                0 <= i <= rows.len(),
                m.wf(),
                quantities_valid(rows@, texts(excluded@), i as int),
                m@ == assemble(rows@, texts(excluded@), i as int),
            decreases rows.len() - i,
        {
            let row = &rows[i];
            proof {
                lemma_assemble_wf(rows@, texts(excluded@), i as int);
            }
            if !is_excluded(excluded, row.client_id.as_str()) {
                if !row.quantity.is_finite_non_negative() {
                    assert(!texts(excluded@).contains(rows@[i as int].client_id@));
                    return Err(MatrixError::InvalidQuantity);
                }
                m.record(row.client_id.as_str(), row.product_id.as_str(), row.quantity);
            }
            i += 1;
        }
        if m.rows.len() == 0 {
            Err(MatrixError::NoInteractions)
        } else {
            Ok(m)
        }
    }
}

/// Tells whether `client` is one of the excluded clients.
pub fn is_excluded(excluded: &Vec<String>, client: &str) -> (found: bool)
    ensures
        found == texts(excluded@).contains(client@),
{
    let mut i: usize = 0;
    while i < excluded.len()
        invariant
            0 <= i <= excluded.len(),
            forall|j: int| 0 <= j < i ==> texts(excluded@)[j] != client@,
        decreases excluded.len() - i,
    {
        if same_text(excluded[i].as_str(), client) {
            assert(texts(excluded@)[i as int] == client@);
            return true;
        }
        i += 1;
    }
    false
}

} // verus!
