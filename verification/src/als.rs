//! The factor model: its index maps, factor matrices and scores, the
//! recommendations it gives and its expected percentile rank.

use vstd::prelude::*;
use vstd::string::*;
use crate::index::{numbers_densely, pair_texts, texts, IndexMap};
use crate::evaluation::{
    counted, lemma_all_counted, lemma_mean_below_one, lemma_row_uncounted, lemma_sum_step,
    pairs_upto, rank_sum_upto, row_pairs, row_rank_sum, Epr, Fitted,
};
use crate::matrix::{
    clients_of, count_entries, lemma_count_prefix, matrix_wf, quantity_of, InteractionMatrix,
    RowModel,
};
use crate::ranking::{
    lemma_rank_strictly_monotone, lemma_ranks_before_order, rank, rank_of, ranks_before,
    top_ranked,
};
use crate::scalar::Scalar;
use crate::training::{index_pairs, is_artifact_of, Hyperparameters, JSONData};

verus! {

/// The rows of a table held as a vector of vectors.
pub open spec fn rows_of<T>(table: Seq<Vec<T>>) -> Seq<Seq<T>> {
    Seq::new(table.len(), |i: int| table[i]@)
}

/// The table has `n` rows of `k` entries each.
pub open spec fn has_shape<T>(table: Seq<Seq<T>>, n: int, k: int) -> bool {
    &&& table.len() == n
    &&& forall|i: int| 0 <= i < table.len() ==> (#[trigger] table[i]).len() == k
}

/// Tells whether the table has `n` rows of `k` entries each.
pub fn shape_is<T>(table: &Vec<Vec<T>>, n: usize, k: usize) -> (fits: bool)
    ensures
        fits == has_shape(rows_of(table@), n as int, k as int),
{
    if table.len() != n {
        return false;
    }
    let mut i: usize = 0;
    while i < table.len()
        invariant
            0 <= i <= table.len(),
            table@.len() == n,
            forall|j: int| 0 <= j < i ==> (#[trigger] rows_of(table@)[j]).len() == k,
        decreases table.len() - i,
    {
        if table[i].len() != k {
            assert(rows_of(table@)[i as int].len() != k);
            return false;
        }
        i += 1;
    }
    true
}

/// The places `0..upto` of `values` that hold a positive number, in order.
pub open spec fn positive_upto(values: Seq<Scalar>, upto: int) -> Seq<int>
    decreases upto,
{
    if upto <= 0 {
        Seq::empty()
    } else if values[upto - 1].positive() {
        positive_upto(values, upto - 1).push(upto - 1)
    } else {
        positive_upto(values, upto - 1)
    }
}

/// The places of the positive weights among `weights`, in order: the rows
/// that the solve for one client, or one product, is restricted to. Where
/// the list is empty the factors of that client or product stay as they are.
pub fn positive_places(weights: &Vec<Scalar>) -> (places: Vec<usize>)
    ensures
        places@.len() == positive_upto(weights@, weights@.len() as int).len(),
        forall|t: int|
            0 <= t < places@.len() ==> (#[trigger] places@[t]) as int == positive_upto(
                weights@,
                weights@.len() as int,
            )[t],
        forall|t: int|
            0 <= t < places@.len() ==> (#[trigger] places@[t]) < weights@.len()
                && weights@[places@[t] as int].positive(),
{
    let mut places: Vec<usize> = Vec::new();
    let mut j: usize = 0;
    while j < weights.len()
        invariant
            0 <= j <= weights@.len(),
            places@.len() == positive_upto(weights@, j as int).len(),
            forall|t: int|
                0 <= t < places@.len() ==> (#[trigger] places@[t]) as int == positive_upto(
                    weights@,
                    j as int,
                )[t],
            forall|t: int|
                0 <= t < places@.len() ==> (#[trigger] places@[t]) < j && weights@[places@[t] as int].positive(),
        decreases weights@.len() - j,
    {
        if weights[j].is_positive() {
            places.push(j);
        }
        j += 1;
    }
    places
}

/// What follows a round of training.
#[derive(Clone, Copy, Debug, PartialEq, Eq, Structural)]
pub enum RoundVerdict {
    /// Another round is to be trained.
    Continue,
    /// Both factor matrices changed by less than the tolerance.
    Converged,
    /// The largest number of rounds has been trained.
    Exhausted,
    /// A change is not a number: the fit has failed.
    NumericError,
}

/// The verdict after `rounds_done` rounds, the last of which changed the
/// client factors by `client_change` and the product factors by
/// `product_change`.
pub open spec fn round_verdict(
    rounds_done: usize,
    max_iterations: usize,
    client_change: Scalar,
    product_change: Scalar,
    tolerance: Scalar,
) -> RoundVerdict {
    if client_change.not_a_number() || product_change.not_a_number()
        || tolerance.not_a_number() {
        RoundVerdict::NumericError
    } else if client_change.key() < tolerance.key() && product_change.key() < tolerance.key() {
        RoundVerdict::Converged
    } else if rounds_done >= max_iterations {
        RoundVerdict::Exhausted
    } else {
        RoundVerdict::Continue
    }
}

/// Why a model could not take the data of a trained model.
#[derive(Clone, Copy, Debug, PartialEq, Eq, Structural)]
pub enum ModelError {
    /// The client index does not number its clients one-to-one from zero.
    ClientIndex,
    /// The product index does not number its products one-to-one from zero.
    ProductIndex,
    /// The client factors are not one row of `num_factors` entries per client.
    ClientFactors,
    /// The product factors are not one row of `num_factors` entries per product.
    ProductFactors,
    /// The scores are not one row per client with one entry per product.
    Scores,
}

/// Product `j` has rank `t` and identifier `id`.
pub open spec fn has_rank(scores: Seq<i64>, ids: Seq<Seq<char>>, j: int, t: int, id: Seq<char>) -> bool {
    0 <= j < ids.len() && rank(scores, ids, j) == t && ids[j] == id
}

/// The entry at place `t` of the list is the product of rank `t`.
pub open spec fn ranked_at(scores: Seq<i64>, ids: Seq<Seq<char>>, list: Seq<Seq<char>>, t: int) -> bool {
    exists|j: int| #[trigger] has_rank(scores, ids, j, t, list[t])
}

/// The list holds, best first, the `limit` best-ranked products under the
/// scores, or all products where there are fewer.
pub open spec fn is_top_ranking(
    scores: Seq<i64>,
    ids: Seq<Seq<char>>,
    limit: int,
    list: Seq<Seq<char>>,
) -> bool {
    &&& list.len() == if limit <= ids.len() {
        limit
    } else {
        ids.len() as int
    }
    &&& forall|t: int| 0 <= t < list.len() ==> #[trigger] ranked_at(scores, ids, list, t)
}

/// Only one list is the top ranking of given scores.
pub proof fn lemma_top_ranking_unique(
    scores: Seq<i64>,
    ids: Seq<Seq<char>>,
    limit: int,
    a: Seq<Seq<char>>,
    b: Seq<Seq<char>>,
)
    requires
        ids.no_duplicates(),
        is_top_ranking(scores, ids, limit, a),
        is_top_ranking(scores, ids, limit, b),
    ensures
        a == b,
{
    assert forall|t: int| 0 <= t < a.len() implies a[t] == b[t] by {
        assert(ranked_at(scores, ids, a, t));
        assert(ranked_at(scores, ids, b, t));
        let j = choose|j: int| #[trigger] has_rank(scores, ids, j, t, a[t]);
        let k = choose|k: int| #[trigger] has_rank(scores, ids, k, t, b[t]);
        if j != k {
            lemma_ranks_before_order(scores, ids, j, k, k);
            if ranks_before(scores, ids, j, k) {
                lemma_rank_strictly_monotone(scores, ids, j, k);
            } else {
                lemma_rank_strictly_monotone(scores, ids, k, j);
            }
        }
    }
    assert(a =~= b);
}

/// A top ranking lists its products by descending score, and none twice.
pub proof fn lemma_top_ranking_sorted(
    scores: Seq<i64>,
    ids: Seq<Seq<char>>,
    limit: int,
    list: Seq<Seq<char>>,
    s: int,
    t: int,
)
    requires
        ids.no_duplicates(),
        is_top_ranking(scores, ids, limit, list),
        0 <= s < t < list.len(),
    ensures
        list[s] != list[t],
        scores[ids.index_of(list[s])] >= scores[ids.index_of(list[t])],
{
    assert(ranked_at(scores, ids, list, s));
    assert(ranked_at(scores, ids, list, t));
    let j = choose|j: int| #[trigger] has_rank(scores, ids, j, s, list[s]);
    let k = choose|k: int| #[trigger] has_rank(scores, ids, k, t, list[t]);
    assert(ids.contains(list[s]));
    assert(ids.contains(list[t]));
    assert(ids.index_of(list[s]) == j);
    assert(ids.index_of(list[t]) == k);
    lemma_ranks_before_order(scores, ids, j, k, k);
    if ranks_before(scores, ids, k, j) {
        lemma_rank_strictly_monotone(scores, ids, k, j);
    }
}

/// An alternating-least-squares factor model over an interaction matrix.
///
/// A model starts untrained. It is trained once it holds its two index maps,
/// one factor row per client and per product, and the score of every product
/// for every client. The library carries factors and never computes with
/// them: whoever trains or loads a model hands in the scores, each the
/// ordering key of the inner product of a client's and a product's factor
/// row (see `Scalar::order_key`). Ranking and evaluation go by these keys.
pub struct ALS {
    num_factors: usize,
    regularization: Scalar,
    confidence_multiplier: Scalar,
    tolerance: Scalar,
    max_iterations: usize,
    matrix: InteractionMatrix,
    client_index: Option<IndexMap>,
    product_index: Option<IndexMap>,
    client_factors: Option<Vec<Vec<Scalar>>>,
    product_factors: Option<Vec<Vec<Scalar>>>,
    scores: Option<Vec<Vec<i64>>>,
}

impl ALS {
    /// Number of latent factors.
    pub closed spec fn spec_num_factors(&self) -> usize {
        self.num_factors
    }

    /// The ridge penalty.
    pub closed spec fn spec_regularization(&self) -> Scalar {
        self.regularization
    }

    /// The multiplier that turns a quantity into a confidence.
    pub closed spec fn spec_confidence_multiplier(&self) -> Scalar {
        self.confidence_multiplier
    }

    /// The change of the factors below which training stops.
    pub closed spec fn spec_tolerance(&self) -> Scalar {
        self.tolerance
    }

    /// The largest number of training rounds.
    pub closed spec fn spec_max_iterations(&self) -> usize {
        self.max_iterations
    }

    /// The rows of the training matrix.
    pub closed spec fn matrix_rows(&self) -> Seq<RowModel> {
        self.matrix@
    }

    /// The model has index maps.
    pub closed spec fn indexed(&self) -> bool {
        self.client_index.is_some() && self.product_index.is_some()
    }

    /// The model holds factors and scores.
    pub closed spec fn trained(&self) -> bool {
        self.scores.is_some()
    }

    /// The clients in the order of their factor rows.
    pub closed spec fn clients(&self) -> Seq<Seq<char>> {
        self.client_index.unwrap()@
    }

    /// The products in the order of their factor rows.
    pub closed spec fn products(&self) -> Seq<Seq<char>> {
        self.product_index.unwrap()@
    }

    /// The factor rows of the clients.
    pub closed spec fn client_factor_rows(&self) -> Seq<Seq<Scalar>> {
        rows_of(self.client_factors.unwrap()@)
    }

    /// The factor rows of the products.
    pub closed spec fn product_factor_rows(&self) -> Seq<Seq<Scalar>> {
        rows_of(self.product_factors.unwrap()@)
    }

    /// The score of every product, by row for every client.
    pub closed spec fn score_rows(&self) -> Seq<Seq<i64>> {
        rows_of(self.scores.unwrap()@)
    }

    /// The model is consistent: its matrix and index maps are valid, and the
    /// shapes of a trained model's factors and scores agree with its index
    /// maps and its number of factors.
    pub closed spec fn wf(&self) -> bool {
        &&& self.matrix.wf()
        &&& (self.client_index matches Some(m) ==> m.wf())
        &&& (self.product_index matches Some(m) ==> m.wf())
        &&& self.client_factors.is_some() == self.scores.is_some()
        &&& self.product_factors.is_some() == self.scores.is_some()
        &&& (self.scores.is_some() ==> {
            &&& self.indexed()
            &&& has_shape(
                self.client_factor_rows(),
                self.clients().len() as int,
                self.num_factors as int,
            )
            &&& has_shape(
                self.product_factor_rows(),
                self.products().len() as int,
                self.num_factors as int,
            )
            &&& has_shape(
                self.score_rows(),
                self.clients().len() as int,
                self.products().len() as int,
            )
        })
    }

    /// What validity means, for those who use a model.
    pub proof fn lemma_wf(&self)
        requires
            self.wf(),
        ensures
            matrix_wf(self.matrix_rows()),
            self.trained() ==> self.indexed(),
            self.indexed() ==> self.clients().no_duplicates() && self.products().no_duplicates(),
            self.trained() ==> has_shape(
                self.client_factor_rows(),
                self.clients().len() as int,
                self.spec_num_factors() as int,
            ),
            self.trained() ==> has_shape(
                self.product_factor_rows(),
                self.products().len() as int,
                self.spec_num_factors() as int,
            ),
            self.trained() ==> has_shape(
                self.score_rows(),
                self.clients().len() as int,
                self.products().len() as int,
            ),
    {
        self.matrix.lemma_wf();
        if self.indexed() {
            self.client_index.unwrap().lemma_wf();
            self.product_index.unwrap().lemma_wf();
        }
    }

    /// An untrained model with the given hyperparameters over `matrix`.
    pub fn new(
        num_factors: usize,
        regularization: Scalar,
        confidence_multiplier: Scalar,
        tolerance: Scalar,
        max_iterations: usize,
        matrix: InteractionMatrix,
    ) -> (model: ALS)
        requires
            matrix.wf(),
        ensures
            model.wf(),
            !model.trained(),
            !model.indexed(),
            model.spec_num_factors() == num_factors,
            model.spec_regularization() == regularization,
            model.spec_confidence_multiplier() == confidence_multiplier,
            model.spec_tolerance() == tolerance,
            model.spec_max_iterations() == max_iterations,
            model.matrix_rows() == matrix@,
    {
        ALS {
            num_factors,
            regularization,
            confidence_multiplier,
            tolerance,
            max_iterations,
            matrix,
            client_index: None,
            product_index: None,
            client_factors: None,
            product_factors: None,
            scores: None,
        }
    }

    /// Number of latent factors.
    pub fn num_factors(&self) -> (k: usize)
        ensures
            k == self.spec_num_factors(),
    {
        self.num_factors
    }

    /// The ridge penalty.
    pub fn regularization(&self) -> (r: Scalar)
        ensures
            r == self.spec_regularization(),
    {
        self.regularization
    }

    /// The multiplier that turns a quantity into a confidence.
    pub fn confidence_multiplier(&self) -> (r: Scalar)
        ensures
            r == self.spec_confidence_multiplier(),
    {
        self.confidence_multiplier
    }

    /// The change of the factors below which training stops.
    pub fn tolerance(&self) -> (r: Scalar)
        ensures
            r == self.spec_tolerance(),
    {
        self.tolerance
    }

    /// The largest number of training rounds.
    pub fn max_iterations(&self) -> (n: usize)
        ensures
            n == self.spec_max_iterations(),
    {
        self.max_iterations
    }

    /// The training matrix.
    pub fn matrix(&self) -> (m: &InteractionMatrix)
        requires
            self.wf(),
        ensures
            m.wf(),
            m@ == self.matrix_rows(),
    {
        &self.matrix
    }

    /// Tells whether the model holds factors and scores.
    pub fn is_trained(&self) -> (t: bool)
        ensures
            t == self.trained(),
    {
        self.scores.is_some()
    }

    /// The client index, once the model has one.
    pub fn client_index(&self) -> (index: Option<&IndexMap>)
        requires
            self.wf(),
        ensures
            index.is_some() == self.indexed(),
            index matches Some(m) ==> m.wf() && m@ == self.clients(),
    {
        if self.product_index.is_some() {
            self.client_index.as_ref()
        } else {
            None
        }
    }

    /// The product index, once the model has one.
    pub fn product_index(&self) -> (index: Option<&IndexMap>)
        requires
            self.wf(),
        ensures
            index.is_some() == self.indexed(),
            index matches Some(m) ==> m.wf() && m@ == self.products(),
    {
        if self.client_index.is_some() {
            self.product_index.as_ref()
        } else {
            None
        }
    }

    /// The factor rows of the clients, once the model is trained.
    pub fn client_factors(&self) -> (rows: Option<&Vec<Vec<Scalar>>>)
        requires
            self.wf(),
        ensures
            rows.is_some() == self.trained(),
            rows matches Some(r) ==> rows_of(r@) == self.client_factor_rows(),
    {
        self.client_factors.as_ref()
    }

    /// The factor rows of the products, once the model is trained.
    pub fn product_factors(&self) -> (rows: Option<&Vec<Vec<Scalar>>>)
        requires
            self.wf(),
        ensures
            rows.is_some() == self.trained(),
            rows matches Some(r) ==> rows_of(r@) == self.product_factor_rows(),
    {
        self.product_factors.as_ref()
    }

    /// Takes over the data of a trained model: its index maps as (identifier,
    /// position) pairs, one factor row per client and per product, and the
    /// score of every product for every client. The data is refused, and the
    /// model left as it was, unless each index numbers its identifiers
    /// one-to-one from zero and all shapes agree with the index maps and with
    /// the number of factors.
    pub fn build_from_data(
        &mut self,
        client_factors: Vec<Vec<Scalar>>,
        product_factors: Vec<Vec<Scalar>>,
        client_index: &Vec<(String, usize)>,
        product_index: &Vec<(String, usize)>,
        scores: Vec<Vec<i64>>,
    ) -> (done: Result<(), ModelError>)
        requires
            old(self).wf(),
        ensures
            final(self).wf(),
            done == data_verdict(
                old(self).spec_num_factors() as int,
                rows_of(client_factors@),
                rows_of(product_factors@),
                pair_texts(client_index@),
                pair_texts(product_index@),
                rows_of(scores@),
            ),
            done.is_err() ==> *final(self) == *old(self),
            done.is_ok() ==> {
                &&& final(self).trained()
                &&& final(self).indexed()
                &&& final(self).clients().len() == client_index@.len()
                &&& final(self).products().len() == product_index@.len()
                &&& forall|i: int|
                    0 <= i < client_index@.len() ==> final(self).clients()[(
                    #[trigger] client_index@[i]).1 as int] == client_index@[i].0@
                &&& forall|i: int|
                    0 <= i < product_index@.len() ==> final(self).products()[(
                    #[trigger] product_index@[i]).1 as int] == product_index@[i].0@
                &&& final(self).client_factor_rows() == rows_of(client_factors@)
                &&& final(self).product_factor_rows() == rows_of(product_factors@)
                &&& final(self).score_rows() == rows_of(scores@)
                &&& final(self).matrix_rows() == old(self).matrix_rows()
                &&& final(self).spec_num_factors() == old(self).spec_num_factors()
                &&& final(self).spec_regularization() == old(self).spec_regularization()
                &&& final(self).spec_confidence_multiplier() == old(
                    self,
                ).spec_confidence_multiplier()
                &&& final(self).spec_tolerance() == old(self).spec_tolerance()
                &&& final(self).spec_max_iterations() == old(self).spec_max_iterations()
            },
    {
        let clients = match IndexMap::from_pairs(client_index) {
            Some(m) => m,
            None => {
                return Err(ModelError::ClientIndex);
            },
        };
        let products = match IndexMap::from_pairs(product_index) {
            Some(m) => m,
            None => {
                return Err(ModelError::ProductIndex);
            },
        };
        if !shape_is(&client_factors, clients.len(), self.num_factors) {
            return Err(ModelError::ClientFactors);
        }
        if !shape_is(&product_factors, products.len(), self.num_factors) {
            return Err(ModelError::ProductFactors);
        }
        if !shape_is(&scores, clients.len(), products.len()) {
            return Err(ModelError::Scores);
        }
        self.client_index = Some(clients);
        self.product_index = Some(products);
        self.client_factors = Some(client_factors);
        self.product_factors = Some(product_factors);
        self.scores = Some(scores);
        Ok(())
    }

    /// The list is what the model recommends to `client` with the given
    /// limit: nothing for a client that the model does not know or while the
    /// model is untrained, else the top ranking by the client's scores.
    pub open spec fn is_recommendation(
        &self,
        client: Seq<char>,
        limit: int,
        list: Seq<Seq<char>>,
    ) -> bool {
        if self.trained() && self.clients().contains(client) {
            is_top_ranking(
                self.score_rows()[self.clients().index_of(client)],
                self.products(),
                limit,
                list,
            )
        } else {
            list.len() == 0
        }
    }

    /// A recommendation has at most `limit` entries and at most as many as
    /// there are products. Where at least one product is asked for and the
    /// model has a product, the list is empty exactly for a client that the
    /// model does not know.
    pub proof fn lemma_recommendation_size(
        &self,
        client: Seq<char>,
        limit: int,
        list: Seq<Seq<char>>,
    )
        requires
            self.wf(),
            self.trained(),
            limit >= 0,
            self.is_recommendation(client, limit, list),
        ensures
            list.len() <= limit,
            list.len() <= self.products().len(),
            limit >= 1 && self.products().len() >= 1 ==> (list.len() == 0 <==> !self.clients().contains(
                client,
            )),
    {
    }

    /// Only one list is the recommendation of a model to a client.
    pub proof fn lemma_recommendation_unique(
        &self,
        client: Seq<char>,
        limit: int,
        a: Seq<Seq<char>>,
        b: Seq<Seq<char>>,
    )
        requires
            self.wf(),
            self.is_recommendation(client, limit, a),
            self.is_recommendation(client, limit, b),
        ensures
            a == b,
    {
        self.lemma_wf();
        if self.trained() && self.clients().contains(client) {
            lemma_top_ranking_unique(
                self.score_rows()[self.clients().index_of(client)],
                self.products(),
                limit,
                a,
                b,
            );
        } else {
            assert(a =~= b);
        }
    }

    /// The interaction at place `k` of row `i` of the training matrix has its
    /// client and its product in the index maps, at positions within the
    /// factor rows.
    pub open spec fn interaction_indexed(&self, i: int, k: int) -> bool {
        let row = self.matrix_rows()[i];
        &&& self.clients().contains(row.client)
        &&& self.products().contains(row.products[k])
        &&& 0 <= self.clients().index_of(row.client) < self.client_factor_rows().len()
        &&& 0 <= self.products().index_of(row.products[k]) < self.product_factor_rows().len()
    }

    /// Where the index maps are those of the training matrix, they hold the
    /// client and the product of every interaction, and in a trained model
    /// both positions lie within the factor rows.
    pub proof fn lemma_index_covers_matrix(&self, i: int, k: int)
        requires
            self.wf(),
            self.indexed(),
            self.clients() == clients_of(self.matrix_rows()),
            self.products() == observed_products(
                self.matrix_rows(),
                self.matrix_rows().len() as int,
            ),
            0 <= i < self.matrix_rows().len(),
            0 <= k < self.matrix_rows()[i].products.len(),
        ensures
            self.clients().contains(self.matrix_rows()[i].client),
            self.products().contains(self.matrix_rows()[i].products[k]),
            self.trained() ==> {
                &&& 0 <= self.clients().index_of(self.matrix_rows()[i].client)
                    < self.client_factor_rows().len()
                &&& 0 <= self.products().index_of(self.matrix_rows()[i].products[k])
                    < self.product_factor_rows().len()
            },
    {
        self.lemma_wf();
        lemma_interactions_indexed(self.matrix_rows(), self.matrix_rows().len() as int, i, k);
    }

    /// A trained model whose index maps are those of its training matrix has
    /// an expected percentile rank: every interaction counts.
    pub proof fn lemma_epr_present(&self)
        requires
            self.wf(),
            self.trained(),
            self.clients() == clients_of(self.matrix_rows()),
            self.products() == observed_products(
                self.matrix_rows(),
                self.matrix_rows().len() as int,
            ),
            self.matrix_rows().len() >= 1,
        ensures
            self.spec_epr().is_some(),
    {
        self.lemma_wf();
        let f = self.fitted();
        let m = self.matrix_rows();
        assert forall|i: int, k: int|
            0 <= i < m.len() && 0 <= k < m[i].products.len() implies #[trigger] counted(f, i, k) by {
            lemma_interactions_indexed(m, m.len() as int, i, k);
        }
        lemma_all_counted(f, m.len() as int);
        lemma_count_prefix(m, m.len() as int);
        lemma_count_prefix(m, m.len() - 1);
        assert(m.take(m.len() as int) =~= m);
    }

    /// The `n` products recommended to a client, best first; one product
    /// where `n` is not given. The list is empty for an unknown client and
    /// for an untrained model.
    pub fn recommend(&self, client_id: &str, n: Option<usize>) -> (list: Vec<String>)
        requires
            self.wf(),
        ensures
            self.is_recommendation(
                client_id@,
                match n {
                    Some(limit) => limit as int,
                    None => 1,
                },
                texts(list@),
            ),
    {
        let mut list: Vec<String> = Vec::new();
        let scores = match &self.scores {
            Some(s) => s,
            None => {
                return list;
            },
        };
        let clients = match &self.client_index {
            Some(m) => m,
            None => {
                return list;
            },
        };
        let products = match &self.product_index {
            Some(m) => m,
            None => {
                return list;
            },
        };
        let at = match clients.get(client_id) {
            Some(i) => i,
            None => {
                return list;
            },
        };
        proof {
            clients.lemma_wf();
            products.lemma_wf();
            assert(self.score_rows()[at as int] == scores@[at as int]@);
        }
        let limit: usize = match n {
            Some(l) => l,
            None => 1,
        };
        let row = &scores[at];
        let picked = top_ranked(row, products, limit);
        let mut t: usize = 0;
        while t < picked.len()
            invariant
                0 <= t <= picked@.len(),
                list@.len() == t,
                forall|s: int|
                    0 <= s < picked@.len() ==> (#[trigger] picked@[s]) < products@.len() && rank(
                        row@,
                        products@,
                        picked@[s] as int,
                    ) == s,
                forall|s: int| 0 <= s < t ==> (#[trigger] list@[s])@ == products@[picked@[s] as int],
            decreases picked@.len() - t,
        {
            list.push(products.id_at(picked[t]).clone());
            t += 1;
        }
        proof {
            let shown = texts(list@);
            assert(clients@.index_of(client_id@) == at);
            assert(row@ == self.score_rows()[at as int]);
            assert(shown.len() == picked@.len());
            assert forall|s: int| 0 <= s < shown.len() implies #[trigger] ranked_at(
                row@,
                products@,
                shown,
                s,
            ) by {
                let j = picked@[s] as int;
                assert(list@[s]@ == products@[j]);
                assert(has_rank(row@, products@, j, s, shown[s]));
            }
            let limit_int: int = match n {
                Some(l) => l as int,
                None => 1,
            };
            assert(limit_int == limit);
            assert(shown.len() == if limit_int <= products@.len() {
                limit_int
            } else {
                products@.len() as int
            });
            assert(is_top_ranking(row@, products@, limit_int, shown));
            assert(self.products() == products@);
            assert(self.clients() == clients@);
        }
        list
    }

    /// Decides what follows a round of training: the fit has failed where a
    /// change is not a number; it has converged where both factor matrices
    /// changed by less than the tolerance; it stops where the largest number
    /// of rounds has been trained; else it goes on.
    pub fn after_round(&self, rounds_done: usize, client_change: Scalar, product_change: Scalar) -> (verdict:
        RoundVerdict)
        ensures
            verdict == round_verdict(
                rounds_done,
                self.spec_max_iterations(),
                client_change,
                product_change,
                self.spec_tolerance(),
            ),
    {
        let limit = match self.tolerance.order_key() {
            Some(k) => k,
            None => {
                return RoundVerdict::NumericError;
            },
        };
        let clients = match client_change.order_key() {
            Some(k) => k,
            None => {
                return RoundVerdict::NumericError;
            },
        };
        let products = match product_change.order_key() {
            Some(k) => k,
            None => {
                return RoundVerdict::NumericError;
            },
        };
        if clients < limit && products < limit {
            RoundVerdict::Converged
        } else if rounds_done >= self.max_iterations {
            RoundVerdict::Exhausted
        } else {
            RoundVerdict::Continue
        }
    }

    /// Completes a fit: numbers the clients and the products of the training
    /// matrix and takes over the factors that training gave for them, one row
    /// per client and per product in the order of the matrix, and the score
    /// of every product for every client. Factors or scores of another shape
    /// are refused and the model is left as it was. After a fit every
    /// interaction of the matrix has its client and its product in the index
    /// maps, at positions within the factor rows.
    pub fn fit(
        &mut self,
        client_factors: Vec<Vec<Scalar>>,
        product_factors: Vec<Vec<Scalar>>,
        scores: Vec<Vec<i64>>,
    ) -> (done: Result<(), ModelError>)
        requires
            old(self).wf(),
        ensures
            final(self).wf(),
            done == fit_verdict(
                old(self).spec_num_factors() as int,
                old(self).matrix_rows(),
                rows_of(client_factors@),
                rows_of(product_factors@),
                rows_of(scores@),
            ),
            done.is_err() ==> *final(self) == *old(self),
            done.is_ok() ==> {
                &&& final(self).trained()
                &&& final(self).indexed()
                &&& final(self).clients() == clients_of(old(self).matrix_rows())
                &&& final(self).products() == observed_products(
                    old(self).matrix_rows(),
                    old(self).matrix_rows().len() as int,
                )
                &&& final(self).client_factor_rows() == rows_of(client_factors@)
                &&& final(self).product_factor_rows() == rows_of(product_factors@)
                &&& final(self).score_rows() == rows_of(scores@)
                &&& final(self).matrix_rows() == old(self).matrix_rows()
                &&& final(self).spec_num_factors() == old(self).spec_num_factors()
                &&& final(self).spec_regularization() == old(self).spec_regularization()
                &&& final(self).spec_confidence_multiplier() == old(
                    self,
                ).spec_confidence_multiplier()
                &&& final(self).spec_tolerance() == old(self).spec_tolerance()
                &&& final(self).spec_max_iterations() == old(self).spec_max_iterations()
                &&& forall|i: int, k: int|
                    0 <= i < old(self).matrix_rows().len() && 0 <= k < old(
                        self,
                    ).matrix_rows()[i].products.len() ==> #[trigger] final(self).interaction_indexed(
                        i,
                        k,
                    )
            },
    {
        let (clients, products, _) = number_matrix(&self.matrix);
        if !shape_is(&client_factors, clients.len(), self.num_factors) {
            return Err(ModelError::ClientFactors);
        }
        if !shape_is(&product_factors, products.len(), self.num_factors) {
            return Err(ModelError::ProductFactors);
        }
        if !shape_is(&scores, clients.len(), products.len()) {
            return Err(ModelError::Scores);
        }
        self.client_index = Some(clients);
        self.product_index = Some(products);
        self.client_factors = Some(client_factors);
        self.product_factors = Some(product_factors);
        self.scores = Some(scores);
        proof {
            let m = self.matrix_rows();
            assert(m == old(self).matrix_rows());
            assert(self.wf());
            assert(self.clients() == clients_of(m));
            assert(self.products() == observed_products(m, m.len() as int));
            assert(self.client_factor_rows() == rows_of(client_factors@));
            assert(self.product_factor_rows() == rows_of(product_factors@));
            assert(self.score_rows() == rows_of(scores@));
            assert forall|i: int, k: int|
                0 <= i < m.len() && 0 <= k < m[i].products.len() implies #[trigger] self.interaction_indexed(
                i,
                k,
            ) by {
                self.lemma_index_covers_matrix(i, k);
            }
        }
        Ok(())
    }

    /// Numbers the clients and the products of the training matrix in the
    /// order in which the matrix holds them, and lays the quantities out as
    /// a table with one row per product and one entry per client, zero where
    /// a client did not buy a product. The model is untrained afterwards.
    pub fn build_rating_matrix(&mut self) -> (rating: Vec<Vec<Scalar>>)
        requires
            old(self).wf(),
        ensures
            final(self).wf(),
            final(self).indexed(),
            !final(self).trained(),
            final(self).clients() == clients_of(old(self).matrix_rows()),
            final(self).products() == observed_products(
                old(self).matrix_rows(),
                old(self).matrix_rows().len() as int,
            ),
            final(self).matrix_rows() == old(self).matrix_rows(),
            final(self).spec_num_factors() == old(self).spec_num_factors(),
            final(self).spec_regularization() == old(self).spec_regularization(),
            final(self).spec_confidence_multiplier() == old(self).spec_confidence_multiplier(),
            final(self).spec_tolerance() == old(self).spec_tolerance(),
            final(self).spec_max_iterations() == old(self).spec_max_iterations(),
            has_shape(
                rows_of(rating@),
                final(self).products().len() as int,
                final(self).clients().len() as int,
            ),
            forall|pj: int, ci: int|
                0 <= pj < final(self).products().len() && 0 <= ci < final(self).clients().len()
                    ==> (#[trigger] rating@[pj]@[ci]) == rating_cell(
                    old(self).matrix_rows(),
                    final(self).clients()[ci],
                    final(self).products()[pj],
                ),
    {
        let ghost m = self.matrix@;
        proof {
            self.matrix.lemma_wf();
        }
        let (clients, products, places) = number_matrix(&self.matrix);
        assert(clients@ =~= clients_of(m));
        proof {
            products.lemma_wf();
        }
        let width: usize = self.matrix.len();
        let height: usize = products.len();
        let mut rating: Vec<Vec<Scalar>> = Vec::new();
        let mut pj: usize = 0;
        while pj < height
            invariant
                0 <= pj <= height,
                rating@.len() == pj,
                forall|a: int| 0 <= a < pj ==> (#[trigger] rating@[a])@.len() == width,
                forall|a: int, c: int|
                    0 <= a < pj && 0 <= c < width ==> (#[trigger] rating@[a]@[c]).bits == 0,
            decreases height - pj,
        {
            let mut row: Vec<Scalar> = Vec::new();
            let mut c: usize = 0;
            while c < width
                invariant
                    0 <= c <= width,
                    row@.len() == c,
                    forall|b: int| 0 <= b < c ==> (#[trigger] row@[b]).bits == 0,
                decreases width - c,
            {
                row.push(Scalar::zero());
                c += 1;
            }
            rating.push(row);
            pj += 1;
        }
        let mut i: usize = 0;
        while i < width
            invariant
                m == self.matrix@,
                self.matrix.wf(),
                matrix_wf(m),
                width == m.len(),
                height == products@.len(),
                products@.no_duplicates(),
                0 <= i <= width,
                places@.len() == width,
                forall|a: int|
                    0 <= a < width ==> (#[trigger] places@[a])@.len() == m[a].products.len(),
                forall|a: int, t: int|
                    0 <= a < width && 0 <= t < m[a].products.len() ==> (#[trigger] places@[a]@[t])
                        < products@.len() && products@[places@[a]@[t] as int] == m[a].products[t],
                rating@.len() == height,
                forall|a: int| 0 <= a < height ==> (#[trigger] rating@[a])@.len() == width,
                forall|a: int, c: int|
                    0 <= a < height && 0 <= c < width ==> (#[trigger] rating@[a]@[c]) == row_cell(
                        m[c],
                        products@[a],
                        if c < i {
                            m[c].products.len() as int
                        } else {
                            0
                        },
                    ),
            decreases width - i,
        {
            let mut k: usize = 0;
            while k < self.matrix.row_len(i)
                invariant
                    m == self.matrix@,
                    self.matrix.wf(),
                    matrix_wf(m),
                    width == m.len(),
                    height == products@.len(),
                    products@.no_duplicates(),
                    i < width,
                    0 <= k <= m[i as int].products.len(),
                    places@.len() == width,
                    forall|a: int|
                        0 <= a < width ==> (#[trigger] places@[a])@.len() == m[a].products.len(),
                    forall|a: int, t: int|
                        0 <= a < width && 0 <= t < m[a].products.len() ==> (
                        #[trigger] places@[a]@[t]) < products@.len()
                            && products@[places@[a]@[t] as int] == m[a].products[t],
                    rating@.len() == height,
                    forall|a: int| 0 <= a < height ==> (#[trigger] rating@[a])@.len() == width,
                    forall|a: int, c: int|
                        0 <= a < height && 0 <= c < width ==> (#[trigger] rating@[a]@[c])
                            == row_cell(
                            m[c],
                            products@[a],
                            if c < i {
                                m[c].products.len() as int
                            } else if c == i {
                                k as int
                            } else {
                                0
                            },
                        ),
                decreases m[i as int].products.len() - k,
            {
                let at: usize = places[i][k];
                let q = self.matrix.quantity_at(i, k);
                let ghost before = rating@;
                rating[at][i] = q;
                proof {
                    let row = m[i as int];
                    assert forall|a: int, c: int| 0 <= a < height && 0 <= c < width implies (
                    #[trigger] rating@[a]@[c]) == row_cell(
                        m[c],
                        products@[a],
                        if c < i {
                            m[c].products.len() as int
                        } else if c == i {
                            k + 1
                        } else {
                            0
                        },
                    ) by {
                        assert(before[a]@[c] == row_cell(
                            m[c],
                            products@[a],
                            if c < i {
                                m[c].products.len() as int
                            } else if c == i {
                                k as int
                            } else {
                                0
                            },
                        ));
                        if c == i {
                            lemma_row_cell_step(row, products@[a], k as int);
                            if a != at {
                                assert(products@[a] != products@[at as int]);
                            }
                        }
                    }
                }
                k += 1;
            }
            i += 1;
        }
        proof {
            assert forall|a: int, c: int| 0 <= a < height && 0 <= c < width implies (
            #[trigger] rating@[a]@[c]) == rating_cell(m, clients@[c], products@[a]) by {
                lemma_row_cell_whole(m, c, products@[a]);
            }
        }
        self.client_index = Some(clients);
        self.product_index = Some(products);
        self.client_factors = None;
        self.product_factors = None;
        self.scores = None;
        proof {
            assert(rows_of(rating@).len() == self.products().len());
            assert forall|a: int| 0 <= a < rows_of(rating@).len() implies (#[trigger] rows_of(
                rating@,
            )[a]).len() == self.clients().len() by {
                assert(rating@[a]@.len() == clients_of(m).len());
            }
        }
        rating
    }

    /// Turns the model into its artifact: its hyperparameters, training
    /// matrix, factor rows and index maps. `None` for an untrained model.
    pub fn into_artifact(self) -> (artifact: Option<JSONData>)
        requires
            self.wf(),
        ensures
            artifact.is_some() == self.trained(),
            artifact matches Some(d) ==> is_artifact_of(d, self),
    {
        let ALS {
            num_factors,
            regularization,
            confidence_multiplier,
            tolerance: _,
            max_iterations: _,
            matrix,
            client_index,
            product_index,
            client_factors,
            product_factors,
            scores,
        } = self;
        if scores.is_none() {
            return None;
        }
        let clients = client_index.unwrap();
        let products = product_index.unwrap();
        let data = JSONData {
            hyperparameters: Hyperparameters { num_factors, regularization, confidence_multiplier },
            matrix,
            product_factors: product_factors.unwrap(),
            client_factors: client_factors.unwrap(),
            client_index: clients.to_pairs(),
            product_index: products.to_pairs(),
        };
        proof {
            assert(pair_texts(data.client_index@) =~= index_pairs(clients@));
            assert(pair_texts(data.product_index@) =~= index_pairs(products@));
        }
        Some(data)
    }

    /// What the model's expected percentile rank is computed from.
    pub closed spec fn fitted(&self) -> Fitted {
        Fitted {
            matrix: self.matrix@,
            clients: self.clients(),
            products: self.products(),
            scores: self.score_rows(),
        }
    }

    /// The expected percentile rank of the model, where it has one.
    pub open spec fn spec_epr(&self) -> Option<Epr> {
        let pairs = pairs_upto(self.fitted(), self.matrix_rows().len() as int);
        if !self.trained() || pairs == 0 {
            None
        } else {
            Some(
                Epr {
                    rank_sum: rank_sum_upto(self.fitted(), self.matrix_rows().len() as int) as u128,
                    pairs: pairs as u64,
                    products: self.products().len() as u64,
                },
            )
        }
    }

    /// The parts of `fitted`.
    pub proof fn lemma_fitted(&self)
        ensures
            self.fitted().matrix == self.matrix_rows(),
            self.fitted().clients == self.clients(),
            self.fitted().products == self.products(),
            self.fitted().scores == self.score_rows(),
    {
    }

    /// The expected percentile rank of the model over its training
    /// interactions: for every interaction whose client and product the
    /// index maps hold, the rank of the product among all products for that
    /// client, as a share of the number of products; and of these shares the
    /// mean. `None` for an untrained model and where no interaction counts.
    pub fn compute_epr(&self) -> (epr: Option<Epr>)
        requires
            self.wf(),
        ensures
            !self.trained() ==> epr.is_none(),
            self.trained() ==> epr.is_none() == (pairs_upto(
                self.fitted(),
                self.matrix_rows().len() as int,
            ) == 0),
            epr == self.spec_epr(),
            epr matches Some(e) ==> {
                &&& e.pairs == pairs_upto(self.fitted(), self.matrix_rows().len() as int)
                &&& e.rank_sum == rank_sum_upto(self.fitted(), self.matrix_rows().len() as int)
                &&& e.products == self.products().len()
                &&& e.below_one()
            },
    {
        let scores = match &self.scores {
            Some(s) => s,
            None => {
                return None;
            },
        };
        let clients = match &self.client_index {
            Some(m) => m,
            None => {
                return None;
            },
        };
        let products = match &self.product_index {
            Some(m) => m,
            None => {
                return None;
            },
        };
        let ghost f = self.fitted();
        let ghost m = self.matrix@;
        let p: usize = products.len();
        let mut pairs: usize = 0;
        let mut rank_sum: u128 = 0;
        let mut i: usize = 0;
        proof {
            clients.lemma_wf();
            products.lemma_wf();
            self.matrix.lemma_wf();
            lemma_count_prefix(m, 0);
        }
        while i < self.matrix.len()
            invariant
                self.wf(),
                f == self.fitted(),
                m == self.matrix@,
                m == f.matrix,
                matrix_wf(m),
                count_entries(m) <= usize::MAX,
                self.scores == Some(*scores),
                self.client_index == Some(*clients),
                self.product_index == Some(*products),
                clients@.no_duplicates(),
                products@.no_duplicates(),
                clients.wf(),
                products.wf(),
                p == products@.len(),
                has_shape(f.scores, f.clients.len() as int, f.products.len() as int),
                0 <= i <= m.len(),
                pairs == pairs_upto(f, i as int),
                rank_sum == rank_sum_upto(f, i as int),
                pairs <= count_entries(m.take(i as int)),
                pairs > 0 ==> p >= 1,
                p >= 1 ==> rank_sum <= pairs * (p - 1),
            decreases m.len() - i,
        {
            proof {
                lemma_count_prefix(m, i as int);
                lemma_count_prefix(m, i + 1);
            }
            match clients.get(self.matrix.client_id(i).as_str()) {
                None => {
                    proof {
                        lemma_row_uncounted(f, i as int, m[i as int].products.len() as int);
                    }
                },
                Some(ci) => {
                    assert(f.clients.index_of(m[i as int].client) == ci);
                    let mut k: usize = 0;
                    let ghost before_pairs = pairs;
                    let ghost before_sum = rank_sum;
                    while k < self.matrix.row_len(i)
                        invariant
                            self.wf(),
                            f == self.fitted(),
                            m == self.matrix@,
                            m == f.matrix,
                            self.scores == Some(*scores),
                            self.client_index == Some(*clients),
                            self.product_index == Some(*products),
                            clients@.no_duplicates(),
                            products@.no_duplicates(),
                            clients.wf(),
                            products.wf(),
                            p == products@.len(),
                            has_shape(f.scores, f.clients.len() as int, f.products.len() as int),
                            i < m.len(),
                            ci < clients@.len(),
                            f.clients.contains(m[i as int].client),
                            f.clients.index_of(m[i as int].client) == ci,
                            0 <= k <= m[i as int].products.len(),
                            count_entries(m.take(i as int)) + m[i as int].products.len()
                                <= usize::MAX,
                            before_pairs <= count_entries(m.take(i as int)),
                            pairs == before_pairs + row_pairs(f, i as int, k as int),
                            rank_sum == before_sum + row_rank_sum(f, i as int, k as int),
                            row_pairs(f, i as int, k as int) <= k,
                            pairs > 0 ==> p >= 1,
                            p >= 1 ==> rank_sum <= pairs * (p - 1),
                        decreases m[i as int].products.len() - k,
                    {
                        match products.get(self.matrix.product_id(i, k).as_str()) {
                            None => {},
                            Some(pj) => {
                                assert(f.products.index_of(m[i as int].products[k as int]) == pj);
                                assert(f.scores[ci as int] == scores@[ci as int]@);
                                let r = rank_of(&scores[ci], products, pj);
                                proof {
                                    lemma_sum_step(rank_sum as int, pairs as int, r as int, p as int);
                                }
                                pairs = pairs + 1;
                                rank_sum = rank_sum + r as u128;
                            },
                        }
                        k += 1;
                    }
                },
            }
            i += 1;
        }
        if pairs == 0 {
            None
        } else {
            proof {
                lemma_mean_below_one(rank_sum as int, pairs as int, p as int);
            }
            Some(Epr { rank_sum, pairs: pairs as u64, products: p as u64 })
        }
    }
}

/// The products of the first `upto` entries of `products`, added to `acc`
/// in order, each where `acc` does not hold it yet.
pub open spec fn add_products(acc: Seq<Seq<char>>, products: Seq<Seq<char>>, upto: int) -> Seq<
    Seq<char>,
>
    decreases upto,
{
    if upto <= 0 {
        acc
    } else {
        let earlier = add_products(acc, products, upto - 1);
        if earlier.contains(products[upto - 1]) {
            earlier
        } else {
            earlier.push(products[upto - 1])
        }
    }
}

/// The products of the first `upto` rows, each once, in the order in which
/// the rows hold them.
pub open spec fn observed_products(m: Seq<RowModel>, upto: int) -> Seq<Seq<char>>
    decreases upto,
{
    if upto <= 0 {
        Seq::empty()
    } else {
        add_products(
            observed_products(m, upto - 1),
            m[upto - 1].products,
            m[upto - 1].products.len() as int,
        )
    }
}

/// The quantity that the first `upto` places of a row record for product
/// `p`, zero where they record none.
pub open spec fn row_cell(row: RowModel, p: Seq<char>, upto: int) -> Scalar {
    let seen = row.products.take(upto);
    if seen.contains(p) {
        row.quantities[seen.index_of(p)]
    } else {
        Scalar { bits: 0 }
    }
}

/// One more place of a row records its own product and leaves the others.
pub proof fn lemma_row_cell_step(row: RowModel, p: Seq<char>, k: int)
    requires
        row.products.no_duplicates(),
        row.products.len() == row.quantities.len(),
        0 <= k < row.products.len(),
    ensures
        row_cell(row, p, k + 1) == if p == row.products[k] {
            row.quantities[k]
        } else {
            row_cell(row, p, k)
        },
{
    let seen = row.products.take(k);
    let more = row.products.take(k + 1);
    assert(more[k] == row.products[k]);
    if p == row.products[k] {
        assert(more.contains(p));
        let t = more.index_of(p);
        assert(row.products[t] == row.products[k]);
    } else {
        if seen.contains(p) {
            let t = seen.index_of(p);
            assert(more[t] == p);
            assert(more.contains(p));
            let u = more.index_of(p);
            assert(row.products[u] == row.products[t]);
        }
        if more.contains(p) {
            let u = more.index_of(p);
            assert(u < k);
            assert(seen[u] == p);
        }
    }
}

/// All places of a client's row record what the matrix holds for the client.
pub proof fn lemma_row_cell_whole(m: Seq<RowModel>, c: int, p: Seq<char>)
    requires
        matrix_wf(m),
        0 <= c < m.len(),
    ensures
        row_cell(m[c], p, m[c].products.len() as int) == rating_cell(m, clients_of(m)[c], p),
{
    assert(clients_of(m)[c] == m[c].client);
    assert(clients_of(m).contains(m[c].client));
    assert(clients_of(m).index_of(m[c].client) == c);
    assert(m[c].products.take(m[c].products.len() as int) =~= m[c].products);
}

/// The quantity that client `c` bought of product `p`, zero where the
/// matrix records none.
pub open spec fn rating_cell(m: Seq<RowModel>, c: Seq<char>, p: Seq<char>) -> Scalar {
    match quantity_of(m, c, p) {
        Some(q) => q,
        None => Scalar { bits: 0 },
    }
}

/// Adding products keeps what was there and holds each product added.
pub proof fn lemma_add_products_holds(
    acc: Seq<Seq<char>>,
    products: Seq<Seq<char>>,
    upto: int,
    id: Seq<char>,
)
    requires
        0 <= upto <= products.len(),
    ensures
        acc.contains(id) ==> add_products(acc, products, upto).contains(id),
        (exists|k: int| 0 <= k < upto && products[k] == id) ==> add_products(
            acc,
            products,
            upto,
        ).contains(id),
    decreases upto,
{
    if upto > 0 {
        lemma_add_products_holds(acc, products, upto - 1, id);
        let earlier = add_products(acc, products, upto - 1);
        if !earlier.contains(products[upto - 1]) {
            let grown = earlier.push(products[upto - 1]);
            assert(grown[earlier.len() as int] == products[upto - 1]);
            if earlier.contains(id) {
                let j = choose|j: int| 0 <= j < earlier.len() && earlier[j] == id;
                assert(grown[j] == id);
            }
        }
        if exists|k: int| 0 <= k < upto && products[k] == id {
            let k = choose|k: int| 0 <= k < upto && products[k] == id;
            if k < upto - 1 {
                assert(earlier.contains(id));
            }
        }
    }
}

/// Adding products adds nothing but them.
pub proof fn lemma_add_products_exact(
    acc: Seq<Seq<char>>,
    products: Seq<Seq<char>>,
    upto: int,
    id: Seq<char>,
)
    requires
        0 <= upto <= products.len(),
        add_products(acc, products, upto).contains(id),
    ensures
        acc.contains(id) || exists|k: int| 0 <= k < upto && #[trigger] products[k] == id,
    decreases upto,
{
    if upto > 0 {
        let earlier = add_products(acc, products, upto - 1);
        if earlier.contains(id) {
            lemma_add_products_exact(acc, products, upto - 1, id);
        } else {
            let grown = earlier.push(products[upto - 1]);
            let j = choose|j: int| 0 <= j < grown.len() && grown[j] == id;
            if j < earlier.len() {
                assert(earlier[j] == id);
            }
            assert(products[upto - 1] == id);
        }
    }
}

/// Adding products to a list that holds none twice gives such a list.
pub proof fn lemma_add_products_no_duplicates(
    acc: Seq<Seq<char>>,
    products: Seq<Seq<char>>,
    upto: int,
)
    requires
        0 <= upto <= products.len(),
        acc.no_duplicates(),
    ensures
        add_products(acc, products, upto).no_duplicates(),
    decreases upto,
{
    if upto > 0 {
        lemma_add_products_no_duplicates(acc, products, upto - 1);
        let earlier = add_products(acc, products, upto - 1);
        if !earlier.contains(products[upto - 1]) {
            let grown = earlier.push(products[upto - 1]);
            assert forall|a: int, b: int|
                0 <= a < grown.len() && 0 <= b < grown.len() && a != b implies grown[a]
                != grown[b] by {
                if a < earlier.len() {
                    assert(earlier.contains(grown[a]));
                }
                if b < earlier.len() {
                    assert(earlier.contains(grown[b]));
                }
            }
        }
    }
}

/// The product index of a matrix holds each product once, and only
/// products of interactions of the matrix.
pub proof fn lemma_observed_products_exact(m: Seq<RowModel>, upto: int, id: Seq<char>)
    requires
        0 <= upto <= m.len(),
    ensures
        observed_products(m, upto).no_duplicates(),
        observed_products(m, upto).contains(id) ==> exists|i: int, k: int|
            0 <= i < upto && 0 <= k < m[i].products.len() && #[trigger] m[i].products[k] == id,
    decreases upto,
{
    if upto > 0 {
        lemma_observed_products_exact(m, upto - 1, id);
        let row = m[upto - 1].products;
        lemma_add_products_no_duplicates(observed_products(m, upto - 1), row, row.len() as int);
        if observed_products(m, upto).contains(id) {
            lemma_add_products_exact(observed_products(m, upto - 1), row, row.len() as int, id);
            if !observed_products(m, upto - 1).contains(id) {
                let k = choose|k: int| 0 <= k < row.len() && #[trigger] row[k] == id;
                assert(m[upto - 1].products[k] == id);
            }
        }
    }
}

/// The product index of a matrix holds the product of every interaction of
/// the matrix, and its client index the client.
pub proof fn lemma_interactions_indexed(m: Seq<RowModel>, upto: int, i: int, k: int)
    requires
        0 <= i < upto <= m.len(),
        0 <= k < m[i].products.len(),
    ensures
        observed_products(m, upto).contains(m[i].products[k]),
        clients_of(m).contains(m[i].client),
    decreases upto,
{
    assert(clients_of(m)[i] == m[i].client);
    let row = m[upto - 1].products;
    if i < upto - 1 {
        lemma_interactions_indexed(m, upto - 1, i, k);
    }
    lemma_add_products_holds(
        observed_products(m, upto - 1),
        row,
        row.len() as int,
        m[i].products[k],
    );
}

/// Numbers the clients and the products of a matrix in the order in which
/// the matrix holds them. Returns the client index, the product index and,
/// for every interaction, the position of its product.
fn number_matrix(matrix: &InteractionMatrix) -> (numbered: (IndexMap, IndexMap, Vec<Vec<usize>>))
    requires
        matrix.wf(),
    ensures
        numbered.0.wf(),
        numbered.1.wf(),
        numbered.0@ == clients_of(matrix@),
        numbered.1@ == observed_products(matrix@, matrix@.len() as int),
        numbered.2@.len() == matrix@.len(),
        forall|a: int|
            0 <= a < matrix@.len() ==> (#[trigger] numbered.2@[a])@.len()
                == matrix@[a].products.len(),
        forall|a: int, t: int|
            0 <= a < matrix@.len() && 0 <= t < matrix@[a].products.len() ==> (
            #[trigger] numbered.2@[a]@[t]) < numbered.1@.len()
                && numbered.1@[numbered.2@[a]@[t] as int] == matrix@[a].products[t],
{
    let ghost m = matrix@;
    proof {
        matrix.lemma_wf();
    }
    let mut clients = IndexMap::new();
    let mut products = IndexMap::new();
    // places[i][k] is the position of the product at place k of row i.
    let mut places: Vec<Vec<usize>> = Vec::new();
    let mut i: usize = 0;
    while i < matrix.len()
        invariant
            m == matrix@,
            matrix_wf(m),
            0 <= i <= m.len(),
            clients.wf(),
            products.wf(),
            clients@ == clients_of(m).take(i as int),
            products@ == observed_products(m, i as int),
            places@.len() == i,
            forall|a: int| 0 <= a < i ==> (#[trigger] places@[a])@.len() == m[a].products.len(),
            forall|a: int, t: int|
                0 <= a < i && 0 <= t < m[a].products.len() ==> (#[trigger] places@[a]@[t])
                    < products@.len() && products@[places@[a]@[t] as int] == m[a].products[t],
        decreases m.len() - i,
    {
        proof {
            assert(!clients@.contains(m[i as int].client)) by {
                if clients@.contains(m[i as int].client) {
                    let j = choose|j: int|
                        0 <= j < clients@.len() && clients@[j] == m[i as int].client;
                    assert(clients_of(m)[j] == clients_of(m)[i as int]);
                }
            }
        }
        clients.insert(matrix.client_id(i).as_str());
        assert(clients@ =~= clients_of(m).take(i + 1));
        let mut spots: Vec<usize> = Vec::new();
        let mut k: usize = 0;
        while k < matrix.row_len(i)
            invariant
                m == matrix@,
                i < m.len(),
                0 <= k <= m[i as int].products.len(),
                products.wf(),
                products@ == add_products(
                    observed_products(m, i as int),
                    m[i as int].products,
                    k as int,
                ),
                places@.len() == i,
                forall|a: int|
                    0 <= a < i ==> (#[trigger] places@[a])@.len() == m[a].products.len(),
                forall|a: int, t: int|
                    0 <= a < i && 0 <= t < m[a].products.len() ==> (#[trigger] places@[a]@[t])
                        < products@.len() && products@[places@[a]@[t] as int]
                        == m[a].products[t],
                spots@.len() == k,
                forall|t: int|
                    0 <= t < k ==> (#[trigger] spots@[t]) < products@.len()
                        && products@[spots@[t] as int] == m[i as int].products[t],
            decreases m[i as int].products.len() - k,
        {
            let ghost before = products@;
            let at = products.insert(matrix.product_id(i, k).as_str());
            assert(forall|j: int| 0 <= j < before.len() ==> products@[j] == before[j]);
            spots.push(at);
            k += 1;
        }
        places.push(spots);
        i += 1;
    }
    assert(clients@ =~= clients_of(m));
    (clients, products, places)
}

/// What `fit` answers to the factors and scores it is given for a matrix:
/// the first fault found, in the order client factors, product factors,
/// scores; or success.
pub open spec fn fit_verdict(
    num_factors: int,
    m: Seq<RowModel>,
    client_factors: Seq<Seq<Scalar>>,
    product_factors: Seq<Seq<Scalar>>,
    scores: Seq<Seq<i64>>,
) -> Result<(), ModelError> {
    let clients = m.len() as int;
    let products = observed_products(m, m.len() as int).len() as int;
    if !has_shape(client_factors, clients, num_factors) {
        Err(ModelError::ClientFactors)
    } else if !has_shape(product_factors, products, num_factors) {
        Err(ModelError::ProductFactors)
    } else if !has_shape(scores, clients, products) {
        Err(ModelError::Scores)
    } else {
        Ok(())
    }
}

/// What `build_from_data` answers to the data it is given: the first fault
/// found, in the order client index, product index, client factors, product
/// factors, scores; or success.
pub open spec fn data_verdict(
    num_factors: int,
    client_factors: Seq<Seq<Scalar>>,
    product_factors: Seq<Seq<Scalar>>,
    client_index: Seq<(Seq<char>, int)>,
    product_index: Seq<(Seq<char>, int)>,
    scores: Seq<Seq<i64>>,
) -> Result<(), ModelError> {
    if !numbers_densely(client_index) {
        Err(ModelError::ClientIndex)
    } else if !numbers_densely(product_index) {
        Err(ModelError::ProductIndex)
    } else if !has_shape(client_factors, client_index.len() as int, num_factors) {
        Err(ModelError::ClientFactors)
    } else if !has_shape(product_factors, product_index.len() as int, num_factors) {
        Err(ModelError::ProductFactors)
    } else if !has_shape(scores, client_index.len() as int, product_index.len() as int) {
        Err(ModelError::Scores)
    } else {
        Ok(())
    }
}

} // verus!
